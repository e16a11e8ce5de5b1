//! The config model: what `tasks.toml` says, and when it is valid.

use vstd::prelude::*;

use crate::error::{ErrorView, TsrError};
use crate::path;
use crate::shell;
use crate::text;
use crate::toml;
use crate::toml::{Toml, TomlView};

verus! {

/// The config file's name; the directory that holds it is the workspace root.
pub const CONFIG_FILE: &'static str = "tasks.toml";

/// A backend that a task is handed to.
#[derive(Debug, PartialEq, Eq)]
pub enum Delegate {
    /// `delegate = "turbo"`: runs `turbo run <task>`.
    Bin(String),
    /// `delegate = { bin = "make", args = ["bundle"] }`.
    Full { bin: String, args: Vec<String> },
}

/// One `[tasks.<name>]` table.
#[derive(Debug)]
pub struct Task {
    /// The table key as written (`test`, `web#build`).
    pub key: String,
    pub run: Option<String>,
    pub delegate: Option<Delegate>,
    pub dir: Option<String>,
    pub packages: Option<Vec<String>>,
    pub deps: Vec<String>,
    pub parallel: bool,
    pub args: Vec<String>,
    /// Per-task env, in declaration order.
    pub env: Vec<(String, String)>,
    /// `.env`-style files, later ones overriding earlier ones.
    pub env_files: Vec<String>,
}

/// A parsed workspace configuration.
#[derive(Debug)]
pub struct Config {
    /// The workspace root: the directory that holds `tasks.toml`.
    pub root: String,
    /// `[workspace] members` globs (empty for a single-package repo).
    pub members: Vec<String>,
    /// Workspace-wide `[env]`, in declaration order.
    pub env: Vec<(String, String)>,
    /// `[security] allow_paths`.
    pub allow_paths: Vec<String>,
    /// The tasks, ordered by key; no key occurs twice.
    pub tasks: Vec<Task>,
    /// Whether there is no `tasks.toml`, and any task name is auto-detected.
    pub implicit: bool,
    /// The document, kept so comments and unknown keys survive a rewrite.
    pub doc: toml_edit::DocumentMut,
}

// ---------------------------------------------------------------------------
// The model
// ---------------------------------------------------------------------------
/// A backend.
pub enum DelegateView {
    Bin(Seq<char>),
    Full { bin: Seq<char>, args: Seq<Seq<char>> },
}

/// A task.
pub struct TaskView {
    pub key: Seq<char>,
    pub run: Option<Seq<char>>,
    pub delegate: Option<DelegateView>,
    pub dir: Option<Seq<char>>,
    pub packages: Option<Seq<Seq<char>>>,
    pub deps: Seq<Seq<char>>,
    pub parallel: bool,
    pub args: Seq<Seq<char>>,
    pub env: Seq<(Seq<char>, Seq<char>)>,
    pub env_files: Seq<Seq<char>>,
}

/// A configuration.
pub struct ConfigView {
    pub root: Seq<char>,
    pub members: Seq<Seq<char>>,
    pub env: Seq<(Seq<char>, Seq<char>)>,
    pub allow_paths: Seq<Seq<char>>,
    pub tasks: Seq<TaskView>,
    pub implicit: bool,
}

/// The texts of a list of pairs.
pub open spec fn pair_views(v: Seq<(String, String)>) -> Seq<(Seq<char>, Seq<char>)> {
    Seq::new(v.len(), |i: int| (v[i].0@, v[i].1@))
}

/// The text of an optional string.
pub open spec fn opt_text(s: Option<String>) -> Option<Seq<char>> {
    match s {
        Some(s) => Some(s@),
        None => None,
    }
}

/// The texts of an optional list.
pub open spec fn opt_texts(v: Option<Vec<String>>) -> Option<Seq<Seq<char>>> {
    match v {
        Some(v) => Some(text::texts(v@)),
        None => None,
    }
}

impl View for Delegate {
    type V = DelegateView;

    open spec fn view(&self) -> DelegateView {
        match self {
            Delegate::Bin(s) => DelegateView::Bin(s@),
            Delegate::Full { bin, args } => DelegateView::Full {
                bin: bin@,
                args: text::texts(args@),
            },
        }
    }
}

impl View for Task {
    type V = TaskView;

    open spec fn view(&self) -> TaskView {
        TaskView {
            key: self.key@,
            run: opt_text(self.run),
            delegate: match self.delegate {
                Some(d) => Some(d@),
                None => None,
            },
            dir: opt_text(self.dir),
            packages: opt_texts(self.packages),
            deps: text::texts(self.deps@),
            parallel: self.parallel,
            args: text::texts(self.args@),
            env: pair_views(self.env@),
            env_files: text::texts(self.env_files@),
        }
    }
}

/// The views of a list of tasks.
pub open spec fn task_views(tasks: Seq<Task>) -> Seq<TaskView> {
    Seq::new(tasks.len(), |i: int| tasks[i]@)
}

impl View for Config {
    type V = ConfigView;

    open spec fn view(&self) -> ConfigView {
        ConfigView {
            root: self.root@,
            members: text::texts(self.members@),
            env: pair_views(self.env@),
            allow_paths: text::texts(self.allow_paths@),
            tasks: task_views(self.tasks@),
            implicit: self.implicit,
        }
    }
}

/// A task without any option.
pub open spec fn bare_task(key: Seq<char>) -> TaskView {
    TaskView {
        key,
        run: None,
        delegate: None,
        dir: None,
        packages: None,
        deps: Seq::empty(),
        parallel: false,
        args: Seq::empty(),
        env: Seq::empty(),
        env_files: Seq::empty(),
    }
}

/// The part of a key behind its last `#`: the task's own name.
pub open spec fn task_part(key: Seq<char>) -> Seq<char> {
    text::split(key, '#').last()
}

/// The position of the first task with this key; `tasks.len()` if there is none.
pub open spec fn position(tasks: Seq<TaskView>, key: Seq<char>) -> int
    decreases tasks.len(),
{
    if tasks.len() == 0 {
        0
    } else if tasks[0].key == key {
        0
    } else {
        1 + position(tasks.drop_first(), key)
    }
}

/// The task with this key.
pub open spec fn find_task(tasks: Seq<TaskView>, key: Seq<char>) -> Option<TaskView> {
    let i = position(tasks, key);
    if i < tasks.len() {
        Some(tasks[i])
    } else {
        None
    }
}

pub proof fn lemma_position(tasks: Seq<TaskView>, key: Seq<char>)
    ensures
        0 <= position(tasks, key) <= tasks.len(),
        position(tasks, key) < tasks.len() ==> tasks[position(tasks, key)].key == key,
        forall|i: int| 0 <= i < position(tasks, key) ==> (#[trigger] tasks[i]).key != key,
    decreases tasks.len(),
{
    if tasks.len() > 0 && tasks[0].key != key {
        lemma_position(tasks.drop_first(), key);
        assert forall|i: int| 0 <= i < position(tasks, key) implies (#[trigger] tasks[i]).key
            != key by {
            if i > 0 {
                assert(tasks.drop_first()[i - 1] == tasks[i]);
            }
        }
    }
}

/// Whether each task's key comes before the next one's.
pub open spec fn ordered(tasks: Seq<TaskView>) -> bool {
    forall|i: int, j: int|
        0 <= i < j < tasks.len() ==> text::le((#[trigger] tasks[i]).key, (#[trigger] tasks[j]).key)
            && tasks[i].key != tasks[j].key
}

/// The tasks with one more, in key order; a task with the same key is replaced.
pub open spec fn put_task(tasks: Seq<TaskView>, t: TaskView) -> Seq<TaskView>
    decreases tasks.len(),
{
    if tasks.len() == 0 {
        seq![t]
    } else if tasks.last().key == t.key {
        tasks.drop_last().push(t)
    } else if text::le(tasks.last().key, t.key) {
        tasks.push(t)
    } else {
        put_task(tasks.drop_last(), t).push(tasks.last())
    }
}

// ---------------------------------------------------------------------------
// Reading
// ---------------------------------------------------------------------------
/// An error about one task.
pub open spec fn task_error(key: Seq<char>, what: Seq<char>) -> ErrorView {
    ErrorView::Config("task '"@ + key + "': "@ + what)
}

/// Whether every item is a string.
pub open spec fn all_strings(items: Seq<TomlView>) -> bool {
    forall|i: int| 0 <= i < items.len() ==> (#[trigger] items[i]) is Str
}

/// The texts of an array of strings.
pub open spec fn string_array(v: TomlView, ctx: Seq<char>) -> Result<Seq<Seq<char>>, ErrorView> {
    match v {
        TomlView::Array(items) => if all_strings(items) {
            Ok(Seq::new(items.len(), |i: int| items[i]->Str_0))
        } else {
            Err(ErrorView::Config("'"@ + ctx + "' must contain only strings"@))
        },
        _ => Err(ErrorView::Config("'"@ + ctx + "' must be an array of strings"@)),
    }
}

/// The texts of a string, or of an array of strings.
pub open spec fn string_or_array(v: TomlView, ctx: Seq<char>) -> Result<
    Seq<Seq<char>>,
    ErrorView,
> {
    match v {
        TomlView::Str(s) => Ok(seq![s]),
        TomlView::Array(_) => string_array(v, ctx),
        _ => Err(ErrorView::Config("'"@ + ctx + "' must be a string or an array of strings"@)),
    }
}

/// The pairs of the first `n` entries, each of which must be a string.
pub open spec fn string_pairs(e: toml::Entries, n: int, ctx: Seq<char>) -> Result<
    Seq<(Seq<char>, Seq<char>)>,
    ErrorView,
>
    decreases n,
{
    if n <= 0 {
        Ok(Seq::empty())
    } else {
        match string_pairs(e, n - 1, ctx) {
            Err(err) => Err(err),
            Ok(pairs) => match e[n - 1].1 {
                TomlView::Str(s) => Ok(pairs.push((e[n - 1].0, s))),
                _ => Err(
                    ErrorView::Config("'"@ + ctx + "."@ + e[n - 1].0 + "' must be a string"@),
                ),
            },
        }
    }
}

/// The pairs of a table of strings, in declaration order.
pub open spec fn env_table(v: TomlView, ctx: Seq<char>) -> Result<
    Seq<(Seq<char>, Seq<char>)>,
    ErrorView,
> {
    match toml::fields(v) {
        Some(e) => string_pairs(e, e.len() as int, ctx),
        None => Err(ErrorView::Config("'"@ + ctx + "' must be a table"@)),
    }
}

/// What names a field of a task in a message.
pub open spec fn field_path(key: Seq<char>, field: Seq<char>) -> Seq<char> {
    "tasks."@ + key + "."@ + field
}

/// The backend that a `delegate` value names.
pub open spec fn delegate_of(v: TomlView, key: Seq<char>) -> Result<DelegateView, ErrorView> {
    match v {
        TomlView::Str(s) => if s.len() == 0 {
            Err(task_error(key, "'delegate' string must not be empty"@))
        } else {
            Ok(DelegateView::Bin(s))
        },
        _ => match toml::fields(v) {
            None => Err(
                task_error(key, "'delegate' must be a string or a { bin, args } table"@),
            ),
            Some(e) => match toml::str_at(e, "bin"@) {
                None => Err(task_error(key, "'delegate' table requires a string 'bin'"@)),
                Some(bin) => match toml::lookup(e, "args"@) {
                    None => Ok(DelegateView::Full { bin, args: Seq::empty() }),
                    Some(a) => match string_array(a, field_path(key, "delegate.args"@)) {
                        Err(err) => Err(err),
                        Ok(args) => Ok(DelegateView::Full { bin, args }),
                    },
                },
            },
        },
    }
}

/// A task with one more field read. Unknown fields are tolerated.
pub open spec fn with_field(t: TaskView, name: Seq<char>, v: TomlView) -> Result<
    TaskView,
    ErrorView,
> {
    let key = t.key;
    if name == "run"@ {
        match v {
            TomlView::Str(s) => Ok(TaskView { run: Some(s), ..t }),
            _ => Err(task_error(key, "'run' must be a string"@)),
        }
    } else if name == "dir"@ {
        match v {
            TomlView::Str(s) => Ok(TaskView { dir: Some(s), ..t }),
            _ => Err(task_error(key, "'dir' must be a string"@)),
        }
    } else if name == "delegate"@ {
        match delegate_of(v, key) {
            Ok(d) => Ok(TaskView { delegate: Some(d), ..t }),
            Err(e) => Err(e),
        }
    } else if name == "packages"@ {
        match string_array(v, field_path(key, "packages"@)) {
            Ok(p) => Ok(TaskView { packages: Some(p), ..t }),
            Err(e) => Err(e),
        }
    } else if name == "deps"@ {
        match string_array(v, field_path(key, "deps"@)) {
            Ok(deps) => Ok(TaskView { deps, ..t }),
            Err(e) => Err(e),
        }
    } else if name == "args"@ {
        match string_array(v, field_path(key, "args"@)) {
            Ok(args) => Ok(TaskView { args, ..t }),
            Err(e) => Err(e),
        }
    } else if name == "parallel"@ {
        match v {
            TomlView::Bool(parallel) => Ok(TaskView { parallel, ..t }),
            _ => Err(task_error(key, "'parallel' must be a boolean"@)),
        }
    } else if name == "env"@ {
        match env_table(v, field_path(key, "env"@)) {
            Ok(env) => Ok(TaskView { env, ..t }),
            Err(e) => Err(e),
        }
    } else if name == "env_file"@ {
        match string_or_array(v, field_path(key, "env_file"@)) {
            Ok(env_files) => Ok(TaskView { env_files, ..t }),
            Err(e) => Err(e),
        }
    } else {
        Ok(t)
    }
}

/// The task that the first `n` fields of its table describe.
pub open spec fn task_fields(key: Seq<char>, e: toml::Entries, n: int) -> Result<
    TaskView,
    ErrorView,
>
    decreases n,
{
    if n <= 0 {
        Ok(bare_task(key))
    } else {
        match task_fields(key, e, n - 1) {
            Err(err) => Err(err),
            Ok(t) => with_field(t, e[n - 1].0, e[n - 1].1),
        }
    }
}

/// The task that a table describes.
pub open spec fn task_of(key: Seq<char>, v: TomlView) -> Result<TaskView, ErrorView> {
    match toml::fields(v) {
        None => Err(ErrorView::Config("task '"@ + key + "' must be a table"@)),
        Some(e) => task_fields(key, e, e.len() as int),
    }
}

/// The tasks that the first `n` entries describe.
pub open spec fn tasks_of(e: toml::Entries, n: int) -> Result<Seq<TaskView>, ErrorView>
    decreases n,
{
    if n <= 0 {
        Ok(Seq::empty())
    } else {
        match tasks_of(e, n - 1) {
            Err(err) => Err(err),
            Ok(tasks) => match task_of(e[n - 1].0, e[n - 1].1) {
                Err(err) => Err(err),
                Ok(t) => Ok(put_task(tasks, t)),
            },
        }
    }
}

/// The strings under `[table] key`; none when it is not there.
pub open spec fn strings_at(e: toml::Entries, table: Seq<char>, key: Seq<char>) -> Result<
    Seq<Seq<char>>,
    ErrorView,
> {
    match toml::table_at(e, table) {
        None => Ok(Seq::empty()),
        Some(inner) => match toml::lookup(inner, key) {
            None => Ok(Seq::empty()),
            Some(v) => string_array(v, table + "."@ + key),
        },
    }
}

/// The configuration that a document's entries describe.
pub open spec fn config_of(e: toml::Entries, root: Seq<char>) -> Result<ConfigView, ErrorView> {
    match strings_at(e, "workspace"@, "members"@) {
        Err(err) => Err(err),
        Ok(members) => match (match toml::lookup(e, "env"@) {
            Some(v) => env_table(v, "env"@),
            None => Ok(Seq::empty()),
        }) {
            Err(err) => Err(err),
            Ok(env) => match strings_at(e, "security"@, "allow_paths"@) {
                Err(err) => Err(err),
                Ok(allow_paths) => match (match toml::table_at(e, "tasks"@) {
                    Some(t) => tasks_of(t, t.len() as int),
                    None => Ok(Seq::empty()),
                }) {
                    Err(err) => Err(err),
                    Ok(tasks) => Ok(
                        ConfigView { root, members, env, allow_paths, tasks, implicit: false },
                    ),
                },
            },
        },
    }
}

// ---------------------------------------------------------------------------
// Validity
// ---------------------------------------------------------------------------
/// The characters of a task name: letters, digits, `_`, `-`, `:`.
pub open spec fn is_name_char(c: char) -> bool {
    text::is_letter(c) || text::is_digit(c) || c == '_' || c == '-' || c == ':'
}

/// The first character of `s`, from `from` on, that no task name has.
pub open spec fn illegal_from(s: Seq<char>, from: int) -> Option<char>
    decreases s.len() - from,
{
    if from >= s.len() {
        None
    } else if !is_name_char(s[from]) {
        Some(s[from])
    } else {
        illegal_from(s, from + 1)
    }
}

/// What is wrong with one segment of a key.
pub open spec fn segment_error(key: Seq<char>, seg: Seq<char>) -> Option<ErrorView> {
    if seg.len() == 0 {
        Some(task_error(key, "empty name segment"@))
    } else {
        match illegal_from(seg, 0) {
            Some(c) => Some(
                task_error(
                    key,
                    "illegal character '"@ + seq![c]
                        + "' — task names allow only [A-Za-z0-9_:-]"@,
                ),
            ),
            None => None,
        }
    }
}

/// What is wrong with a task key: an optional `pkg#`, then a name.
pub open spec fn key_error(key: Seq<char>) -> Option<ErrorView> {
    let parts = text::split(key, '#');
    if parts.len() == 1 {
        segment_error(key, parts[0])
    } else if parts.len() == 2 {
        match segment_error(key, parts[0]) {
            Some(e) => Some(e),
            None => segment_error(key, parts[1]),
        }
    } else {
        Some(task_error(key, "at most one '#' (package↔task separator) is allowed"@))
    }
}

/// The task that a `^task` dependency names.
pub open spec fn upstream(dep: Seq<char>) -> Option<Seq<char>> {
    if dep.len() > 0 && dep[0] == '^' {
        Some(dep.skip(1))
    } else {
        None
    }
}

/// What is wrong with a dependency: `task`, `pkg#task`, or `^task` where the
/// owner fans out over packages.
pub open spec fn dep_error(owner: Seq<char>, fans_out: bool, dep: Seq<char>) -> Option<ErrorView> {
    match upstream(dep) {
        Some(name) => if !fans_out {
            Some(
                task_error(
                    owner,
                    "upstream dep '"@ + dep + "' (the v1.1 '^' marker) requires 'packages'"@,
                ),
            )
        } else if key_error(name) is Some {
            Some(task_error(owner, "invalid dependency '"@ + dep + "'"@))
        } else {
            None
        },
        None => if key_error(dep) is Some {
            Some(task_error(owner, "invalid dependency '"@ + dep + "'"@))
        } else {
            None
        },
    }
}

/// What is wrong with the first of the dependencies, from `from` on, that has
/// something wrong.
pub open spec fn deps_error(t: TaskView, from: int) -> Option<ErrorView>
    decreases t.deps.len() - from,
{
    if from >= t.deps.len() {
        None
    } else {
        match dep_error(t.key, t.packages is Some, t.deps[from]) {
            Some(e) => Some(e),
            None => deps_error(t, from + 1),
        }
    }
}

/// What is wrong with a task's `run` string.
pub open spec fn run_error(t: TaskView) -> Option<ErrorView> {
    match t.run {
        None => None,
        Some(run) => match shell::plan(run) {
            Ok(_) => None,
            Err(e) => Some(task_error(t.key, bare_message(e))),
        },
    }
}

/// What an error says, without the words in front of a config error.
pub open spec fn bare_message(e: ErrorView) -> Seq<char> {
    match e {
        ErrorView::Config(m) => m,
        ErrorView::Runtime(m) => "✗ error: "@ + m,
    }
}

/// What is wrong with a task.
pub open spec fn task_invalid(t: TaskView) -> Option<ErrorView> {
    match key_error(t.key) {
        Some(e) => Some(e),
        None => if t.dir is Some && t.packages is Some {
            Some(task_error(t.key, "'dir' and 'packages' are mutually exclusive"@))
        } else {
            match deps_error(t, 0) {
                Some(e) => Some(e),
                None => run_error(t),
            }
        },
    }
}

/// What is wrong with the first task, from `from` on, that has something wrong.
pub open spec fn tasks_invalid(tasks: Seq<TaskView>, from: int) -> Option<ErrorView>
    decreases tasks.len() - from,
{
    if from >= tasks.len() {
        None
    } else {
        match task_invalid(tasks[from]) {
            Some(e) => Some(e),
            None => tasks_invalid(tasks, from + 1),
        }
    }
}

/// What a TOML reader's answer means for the config at `root`.
pub open spec fn parsed_config(
    read: Result<toml::Entries, Seq<char>>,
    root: Seq<char>,
) -> Result<ConfigView, ErrorView> {
    match read {
        Err(m) => Err(ErrorView::Config("invalid TOML in 'tasks.toml': "@ + m)),
        Ok(e) => config_of(e, root),
    }
}

/// What a TOML reader's answer means for the config at `root`, which must be
/// valid.
pub open spec fn valid_config(
    read: Result<toml::Entries, Seq<char>>,
    root: Seq<char>,
) -> Result<ConfigView, ErrorView> {
    match parsed_config(read, root) {
        Err(e) => Err(e),
        Ok(c) => match tasks_invalid(c.tasks, 0) {
            Some(e) => Err(e),
            None => Ok(c),
        },
    }
}

// ---------------------------------------------------------------------------
// Reading, executed
// ---------------------------------------------------------------------------
/// An error about one task.
fn task_err(key: &str, what: &str) -> (e: TsrError)
    ensures
        e@ == task_error(key@, what@),
{
    let mut m = "task '".to_string();
    m.append(key);
    m.append("': ");
    m.append(what);
    TsrError::Config(m)
}

/// What names a field of a task in a message.
fn field_name(key: &str, field: &str) -> (r: String)
    ensures
        r@ == field_path(key@, field@),
{
    let mut m = "tasks.".to_string();
    m.append(key);
    m.append(".");
    m.append(field);
    m
}

/// Read an array of strings.
fn parse_string_array(v: &Toml, ctx: &str) -> (r: Result<Vec<String>, TsrError>)
    ensures
        match r {
            Ok(a) => string_array(v@, ctx@) == Ok::<Seq<Seq<char>>, ErrorView>(text::texts(a@)),
            Err(e) => string_array(v@, ctx@) == Err::<Seq<Seq<char>>, ErrorView>(e@),
        },
{
    let items = match v.as_array() {
        Some(items) => items,
        None => return Err(
            TsrError::Config(text::join3("'", ctx, "' must be an array of strings")),
        ),
    };
    let ghost views = toml::value_views(items@);
    let mut out: Vec<String> = Vec::new();
    let mut i: usize = 0;
    while i < items.len()
        invariant
            i <= items.len(),
            views == toml::value_views(items@),
            v@ == TomlView::Array(views),
            out.len() == i,
            forall|j: int|
                0 <= j < i ==> (#[trigger] views[j]) is Str && out@[j]@ == views[j]->Str_0,
        decreases items.len() - i,
    {
        assert(views[i as int] == items@[i as int]@);
        match items[i].as_str() {
            Some(s) => out.push(s.clone()),
            None => return Err(
                TsrError::Config(text::join3("'", ctx, "' must contain only strings")),
            ),
        }
        i += 1;
    }
    assert(text::texts(out@) =~= Seq::new(views.len(), |i: int| views[i]->Str_0));
    Ok(out)
}

/// Read a string, or an array of strings.
fn parse_string_or_array(v: &Toml, ctx: &str) -> (r: Result<Vec<String>, TsrError>)
    ensures
        match r {
            Ok(a) => string_or_array(v@, ctx@) == Ok::<Seq<Seq<char>>, ErrorView>(
                text::texts(a@),
            ),
            Err(e) => string_or_array(v@, ctx@) == Err::<Seq<Seq<char>>, ErrorView>(e@),
        },
{
    if let Some(s) = v.as_str() {
        let mut out: Vec<String> = Vec::new();
        out.push(s.clone());
        assert(text::texts(out@) =~= seq![s@]);
        return Ok(out);
    }
    if v.as_array().is_some() {
        return parse_string_array(v, ctx);
    }
    Err(TsrError::Config(text::join3("'", ctx, "' must be a string or an array of strings")))
}

/// Read a table of `KEY = "value"` pairs, in declaration order.
fn parse_env_table(v: &Toml, ctx: &str) -> (r: Result<Vec<(String, String)>, TsrError>)
    ensures
        match r {
            Ok(a) => env_table(v@, ctx@) == Ok::<Seq<(Seq<char>, Seq<char>)>, ErrorView>(
                pair_views(a@),
            ),
            Err(e) => env_table(v@, ctx@) == Err::<Seq<(Seq<char>, Seq<char>)>, ErrorView>(e@),
        },
{
    let entries = match v.as_table_like() {
        Some(entries) => entries,
        None => return Err(TsrError::Config(text::join3("'", ctx, "' must be a table"))),
    };
    let ghost e = toml::entry_views(entries@);
    let mut out: Vec<(String, String)> = Vec::new();
    let mut i: usize = 0;
    assert(pair_views(out@) =~= Seq::<(Seq<char>, Seq<char>)>::empty());
    while i < entries.len()
        invariant
            i <= entries.len(),
            e == toml::entry_views(entries@),
            toml::fields(v@) == Some(e),
            string_pairs(e, i as int, ctx@) == Ok::<Seq<(Seq<char>, Seq<char>)>, ErrorView>(
                pair_views(out@),
            ),
        decreases entries.len() - i,
    {
        let ghost before = pair_views(out@);
        assert(e[i as int] == (entries@[i as int].0@, entries@[i as int].1@));
        match entries[i].1.as_str() {
            Some(s) => {
                out.push((entries[i].0.clone(), s.clone()));
                assert(pair_views(out@) =~= before.push((e[i as int].0, s@)));
            },
            None => {
                proof {
                    lemma_string_pairs_err(e, i + 1, ctx@);
                }
                let mut m = "'".to_string();
                m.append(ctx);
                m.append(".");
                m.append(entries[i].0.as_str());
                m.append("' must be a string");
                return Err(TsrError::Config(m));
            },
        }
        i += 1;
    }
    Ok(out)
}

/// An error among the first entries is the error of the whole table.
proof fn lemma_string_pairs_err(e: toml::Entries, n: int, ctx: Seq<char>)
    requires
        0 <= n <= e.len(),
        string_pairs(e, n, ctx) is Err,
    ensures
        string_pairs(e, e.len() as int, ctx) == string_pairs(e, n, ctx),
    decreases e.len() - n,
{
    if n < e.len() {
        lemma_string_pairs_err(e, n + 1, ctx);
    }
}

/// Read a `delegate` value.
fn parse_delegate(v: &Toml, key: &str) -> (r: Result<Delegate, TsrError>)
    ensures
        match r {
            Ok(d) => delegate_of(v@, key@) == Ok::<DelegateView, ErrorView>(d@),
            Err(e) => delegate_of(v@, key@) == Err::<DelegateView, ErrorView>(e@),
        },
{
    if let Some(s) = v.as_str() {
        if text::chars(s.as_str()).len() == 0 {
            return Err(task_err(key, "'delegate' string must not be empty"));
        }
        return Ok(Delegate::Bin(s.clone()));
    }
    let entries = match v.as_table_like() {
        Some(entries) => entries,
        None => return Err(
            task_err(key, "'delegate' must be a string or a { bin, args } table"),
        ),
    };
    let bin = match toml::get_str(entries, "bin") {
        Some(bin) => bin,
        None => return Err(task_err(key, "'delegate' table requires a string 'bin'")),
    };
    let args = match toml::get(entries, "args") {
        None => {
            let none: Vec<String> = Vec::new();
            assert(text::texts(none@) =~= Seq::<Seq<char>>::empty());
            none
        },
        Some(a) => match parse_string_array(a, field_name(key, "delegate.args").as_str()) {
            Ok(args) => args,
            Err(e) => return Err(e),
        },
    };
    Ok(Delegate::Full { bin: bin.clone(), args })
}

/// Read a field that must be a string.
fn expect_string(v: &Toml, key: &str, what: &str) -> (r: Result<String, TsrError>)
    ensures
        match r {
            Ok(s) => v@ == TomlView::Str(s@),
            Err(e) => !(v@ is Str) && e@ == task_error(key@, what@),
        },
{
    match v.as_str() {
        Some(s) => Ok(s.clone()),
        None => Err(task_err(key, what)),
    }
}

impl Task {
    /// A task without any option.
    pub fn new(key: &str) -> (t: Task)
        ensures
            t@ == bare_task(key@),
    {
        let t = Task {
            key: key.to_string(),
            run: None,
            delegate: None,
            dir: None,
            packages: None,
            deps: Vec::new(),
            parallel: false,
            args: Vec::new(),
            env: Vec::new(),
            env_files: Vec::new(),
        };
        assert(t@.deps =~= Seq::<Seq<char>>::empty());
        assert(t@.args =~= Seq::<Seq<char>>::empty());
        assert(t@.env_files =~= Seq::<Seq<char>>::empty());
        assert(t@.env =~= Seq::<(Seq<char>, Seq<char>)>::empty());
        t
    }

    /// The task's own name: the part of the key behind a `#` package prefix.
    pub fn task_name(&self) -> (r: String)
        ensures
            r@ == task_part(self.key@),
    {
        let cs = text::chars(self.key.as_str());
        let parts = text::split_at_char(&cs, '#');
        assert(text::texts(parts@).last() == parts@.last()@);
        parts[parts.len() - 1].clone()
    }

    /// Read one field of the task's table.
    fn read_field(&mut self, name: &str, v: &Toml) -> (r: Result<(), TsrError>)
        ensures
            match r {
                Ok(_) => with_field(old(self)@, name@, v@) == Ok::<TaskView, ErrorView>(
                    final(self)@,
                ),
                Err(e) => with_field(old(self)@, name@, v@) == Err::<TaskView, ErrorView>(e@),
            },
    {
        let key = self.key.clone();
        let k = key.as_str();
        if text::same(name, "run") {
            match expect_string(v, k, "'run' must be a string") {
                Ok(s) => self.run = Some(s),
                Err(e) => return Err(e),
            }
        } else if text::same(name, "dir") {
            match expect_string(v, k, "'dir' must be a string") {
                Ok(s) => self.dir = Some(s),
                Err(e) => return Err(e),
            }
        } else if text::same(name, "delegate") {
            match parse_delegate(v, k) {
                Ok(d) => self.delegate = Some(d),
                Err(e) => return Err(e),
            }
        } else if text::same(name, "packages") {
            match parse_string_array(v, field_name(k, "packages").as_str()) {
                Ok(a) => self.packages = Some(a),
                Err(e) => return Err(e),
            }
        } else if text::same(name, "deps") {
            match parse_string_array(v, field_name(k, "deps").as_str()) {
                Ok(a) => self.deps = a,
                Err(e) => return Err(e),
            }
        } else if text::same(name, "args") {
            match parse_string_array(v, field_name(k, "args").as_str()) {
                Ok(a) => self.args = a,
                Err(e) => return Err(e),
            }
        } else if text::same(name, "parallel") {
            match v.as_bool() {
                Some(b) => self.parallel = b,
                None => return Err(task_err(k, "'parallel' must be a boolean")),
            }
        } else if text::same(name, "env") {
            match parse_env_table(v, field_name(k, "env").as_str()) {
                Ok(a) => self.env = a,
                Err(e) => return Err(e),
            }
        } else if text::same(name, "env_file") {
            match parse_string_or_array(v, field_name(k, "env_file").as_str()) {
                Ok(a) => self.env_files = a,
                Err(e) => return Err(e),
            }
        }
        Ok(())
    }
}

/// Read one `[tasks.<key>]` table.
pub fn parse_task(key: &str, v: &Toml) -> (r: Result<Task, TsrError>)
    ensures
        match r {
            Ok(t) => task_of(key@, v@) == Ok::<TaskView, ErrorView>(t@),
            Err(e) => task_of(key@, v@) == Err::<TaskView, ErrorView>(e@),
        },
{
    let entries = match v.as_table_like() {
        Some(entries) => entries,
        None => return Err(TsrError::Config(text::join3("task '", key, "' must be a table"))),
    };
    let ghost e = toml::entry_views(entries@);
    let mut task = Task::new(key);
    let mut i: usize = 0;
    while i < entries.len()
        invariant
            i <= entries.len(),
            e == toml::entry_views(entries@),
            toml::fields(v@) == Some(e),
            task_fields(key@, e, i as int) == Ok::<TaskView, ErrorView>(task@),
        decreases entries.len() - i,
    {
        assert(e[i as int] == (entries@[i as int].0@, entries@[i as int].1@));
        match task.read_field(entries[i].0.as_str(), &entries[i].1) {
            Ok(_) => {},
            Err(err) => {
                proof {
                    lemma_task_fields_err(key@, e, i + 1);
                }
                return Err(err);
            },
        }
        i += 1;
    }
    Ok(task)
}

/// An error among the first fields is the error of the whole task.
proof fn lemma_task_fields_err(key: Seq<char>, e: toml::Entries, n: int)
    requires
        0 <= n <= e.len(),
        task_fields(key, e, n) is Err,
    ensures
        task_fields(key, e, e.len() as int) == task_fields(key, e, n),
    decreases e.len() - n,
{
    if n < e.len() {
        lemma_task_fields_err(key, e, n + 1);
    }
}

/// Put a task in its place by key; a task with the same key is replaced.
fn insert_task(tasks: &mut Vec<Task>, t: Task)
    ensures
        task_views(final(tasks)@) == put_task(task_views(old(tasks)@), t@),
{
    let ghost all = task_views(tasks@);
    let mut at: usize = tasks.len();
    let ghost mut tail: Seq<TaskView> = Seq::empty();
    assert(all.take(at as int) =~= all);
    assert(put_task(all, t@) =~= put_task(all.take(at as int), t@) + tail);
    // Everything behind `at` comes after the new task.
    while at > 0 && !text::not_after(tasks[at - 1].key.as_str(), t.key.as_str())
        invariant
            at <= tasks.len(),
            all == task_views(tasks@),
            tail == all.skip(at as int),
            put_task(all, t@) == put_task(all.take(at as int), t@) + tail,
        decreases at,
    {
        proof {
            text::lemma_le_total(t.key@, t.key@);
            let front = all.take(at as int);
            assert(front.last() == tasks@[at - 1]@);
            assert(front.drop_last() =~= all.take(at - 1));
            assert(put_task(front, t@) == put_task(front.drop_last(), t@).push(front.last()));
            assert(put_task(all.take(at - 1), t@).push(front.last()) + tail =~= put_task(
                all.take(at - 1),
                t@,
            ) + all.skip(at - 1));
            tail = all.skip(at - 1);
        }
        at -= 1;
    }
    let ghost tv = t@;
    if at > 0 && text::same(tasks[at - 1].key.as_str(), t.key.as_str()) {
        tasks.set(at - 1, t);
        proof {
            let front = all.take(at as int);
            assert(put_task(front, tv) =~= front.drop_last().push(tv));
            assert(task_views(tasks@) =~= front.drop_last().push(tv) + tail);
        }
    } else {
        tasks.insert(at, t);
        proof {
            let front = all.take(at as int);
            if at > 0 {
                assert(put_task(front, tv) =~= front.push(tv));
            } else {
                assert(put_task(front, tv) =~= seq![tv]);
            }
            assert(task_views(tasks@) =~= front.push(tv) + tail);
        }
    }
}

/// Read the `[tasks]` table.
fn parse_tasks(entries: &Vec<(String, Toml)>) -> (r: Result<Vec<Task>, TsrError>)
    ensures
        ({
            let e = toml::entry_views(entries@);
            match r {
                Ok(t) => tasks_of(e, e.len() as int) == Ok::<Seq<TaskView>, ErrorView>(
                    task_views(t@),
                ),
                Err(err) => tasks_of(e, e.len() as int) == Err::<Seq<TaskView>, ErrorView>(err@),
            }
        }),
{
    let ghost e = toml::entry_views(entries@);
    let mut tasks: Vec<Task> = Vec::new();
    let mut i: usize = 0;
    assert(task_views(tasks@) =~= Seq::<TaskView>::empty());
    while i < entries.len()
        invariant
            i <= entries.len(),
            e == toml::entry_views(entries@),
            tasks_of(e, i as int) == Ok::<Seq<TaskView>, ErrorView>(task_views(tasks@)),
        decreases entries.len() - i,
    {
        assert(e[i as int] == (entries@[i as int].0@, entries@[i as int].1@));
        match parse_task(entries[i].0.as_str(), &entries[i].1) {
            Ok(t) => insert_task(&mut tasks, t),
            Err(err) => {
                proof {
                    lemma_tasks_of_err(e, i + 1);
                }
                return Err(err);
            },
        }
        i += 1;
    }
    Ok(tasks)
}

/// An error among the first tasks is the error of the whole table.
proof fn lemma_tasks_of_err(e: toml::Entries, n: int)
    requires
        0 <= n <= e.len(),
        tasks_of(e, n) is Err,
    ensures
        tasks_of(e, e.len() as int) == tasks_of(e, n),
    decreases e.len() - n,
{
    if n < e.len() {
        lemma_tasks_of_err(e, n + 1);
    }
}

/// Read the strings under `[table] key`.
fn parse_strings_at(entries: &Vec<(String, Toml)>, table: &str, key: &str) -> (r: Result<
    Vec<String>,
    TsrError,
>)
    ensures
        match r {
            Ok(a) => strings_at(toml::entry_views(entries@), table@, key@) == Ok::<
                Seq<Seq<char>>,
                ErrorView,
            >(text::texts(a@)),
            Err(e) => strings_at(toml::entry_views(entries@), table@, key@) == Err::<
                Seq<Seq<char>>,
                ErrorView,
            >(e@),
        },
{
    let none: Vec<String> = Vec::new();
    assert(text::texts(none@) =~= Seq::<Seq<char>>::empty());
    match toml::get_table(entries, table) {
        None => Ok(none),
        Some(inner) => match toml::get(inner, key) {
            None => Ok(none),
            Some(v) => parse_string_array(v, text::join3(table, ".", key).as_str()),
        },
    }
}

impl Config {
    /// The configuration that a document's entries describe. `doc` is the
    /// document they were read from.
    pub fn from_entries(
        entries: &Vec<(String, Toml)>,
        root: &str,
        doc: toml_edit::DocumentMut,
    ) -> (r: Result<Config, TsrError>)
        ensures
            match r {
                Ok(c) => config_of(toml::entry_views(entries@), root@) == Ok::<
                    ConfigView,
                    ErrorView,
                >(c@) && c.doc == doc,
                Err(e) => config_of(toml::entry_views(entries@), root@) == Err::<
                    ConfigView,
                    ErrorView,
                >(e@),
            },
    {
        let members = match parse_strings_at(entries, "workspace", "members") {
            Ok(a) => a,
            Err(e) => return Err(e),
        };
        let env = match toml::get(entries, "env") {
            Some(v) => match parse_env_table(v, "env") {
                Ok(a) => a,
                Err(e) => return Err(e),
            },
            None => {
                let none: Vec<(String, String)> = Vec::new();
                assert(pair_views(none@) =~= Seq::<(Seq<char>, Seq<char>)>::empty());
                none
            },
        };
        let allow_paths = match parse_strings_at(entries, "security", "allow_paths") {
            Ok(a) => a,
            Err(e) => return Err(e),
        };
        let tasks = match toml::get_table(entries, "tasks") {
            Some(t) => match parse_tasks(t) {
                Ok(a) => a,
                Err(e) => return Err(e),
            },
            None => {
                let none: Vec<Task> = Vec::new();
                assert(task_views(none@) =~= Seq::<TaskView>::empty());
                none
            },
        };
        Ok(
            Config {
                root: root.to_string(),
                members,
                env,
                allow_paths,
                tasks,
                implicit: false,
                doc,
            },
        )
    }

    /// Read a config text. Whether the config is valid is not asked here.
    pub fn parse_str(text: &str, root: &str) -> (r: Result<Config, TsrError>)
        ensures
            match r {
                Ok(c) => parsed_config(toml::toml_entries(text@), root@) == Ok::<
                    ConfigView,
                    ErrorView,
                >(c@) && toml::toml_entries(text@) == Ok::<toml::Entries, Seq<char>>(
                    toml::document_entries(c.doc),
                ) && toml::document_layout(c.doc) == toml::toml_layout(text@),
                Err(e) => parsed_config(toml::toml_entries(text@), root@) == Err::<
                    ConfigView,
                    ErrorView,
                >(e@),
            },
    {
        match toml::parse_document(text) {
            Err(m) => Err(
                TsrError::Config(text::join2("invalid TOML in 'tasks.toml': ", m.as_str())),
            ),
            Ok(doc) => {
                let entries = toml::entries(&doc);
                Config::from_entries(&entries, root, doc)
            },
        }
    }

    /// Read a config text, which must be valid.
    pub fn load(text: &str, root: &str) -> (r: Result<Config, TsrError>)
        ensures
            match r {
                Ok(c) => valid_config(toml::toml_entries(text@), root@) == Ok::<
                    ConfigView,
                    ErrorView,
                >(c@) && toml::toml_entries(text@) == Ok::<toml::Entries, Seq<char>>(
                    toml::document_entries(c.doc),
                ) && toml::document_layout(c.doc) == toml::toml_layout(text@),
                Err(e) => valid_config(toml::toml_entries(text@), root@) == Err::<
                    ConfigView,
                    ErrorView,
                >(e@),
            },
    {
        let cfg = match Config::parse_str(text, root) {
            Ok(c) => c,
            Err(e) => return Err(e),
        };
        match cfg.validate() {
            Ok(_) => Ok(cfg),
            Err(e) => Err(e),
        }
    }

    /// Read the config that governs a directory. `facts` answers for it and for
    /// its [`ancestors`], and `text` is what the `tasks.toml` that [`locate`] picks
    /// among them holds.
    pub fn discover(start: &str, facts: &Vec<DirFacts>, text: &str) -> (r: Result<Config, TsrError>)
        requires
            facts.len() == upward(start@).len(),
        ensures
            match governing(facts@, 0) {
                None => r matches Err(e) && e@ == ErrorView::Config(
                    "no 'tasks.toml' found in '"@ + start@ + "' or any parent directory"@,
                ),
                Some(i) => {
                    let owed = valid_config(toml::toml_entries(text@), upward(start@)[i]);
                    match r {
                        Ok(c) => owed == Ok::<ConfigView, ErrorView>(c@) && toml::toml_entries(
                            text@,
                        ) == Ok::<toml::Entries, Seq<char>>(toml::document_entries(c.doc))
                            && toml::document_layout(c.doc) == toml::toml_layout(text@),
                        Err(e) => owed == Err::<ConfigView, ErrorView>(e@),
                    }
                },
            },
    {
        match locate(facts) {
            None => Err(not_found(start)),
            Some(i) => {
                let dirs = ancestors(start);
                assert(text::texts(dirs@).len() == dirs.len());
                assert(text::texts(dirs@)[i as int] == dirs@[i as int]@);
                Config::load(text, dirs[i].as_str())
            },
        }
    }

    /// Look up a task by its key.
    pub fn task(&self, key: &str) -> (r: Option<&Task>)
        ensures
            match r {
                Some(t) => find_task(self@.tasks, key@) == Some(t@),
                None => find_task(self@.tasks, key@) is None,
            },
    {
        match self.task_index(key) {
            Some(i) => Some(&self.tasks[i]),
            None => None,
        }
    }

    /// The index of a task, by its key.
    pub fn task_index(&self, key: &str) -> (r: Option<usize>)
        ensures
            match r {
                Some(i) => i < self.tasks.len() && position(self@.tasks, key@) == i,
                None => position(self@.tasks, key@) == self@.tasks.len(),
            },
    {
        let ghost tasks = self@.tasks;
        let mut i: usize = 0;
        assert(tasks.skip(0) =~= tasks);
        while i < self.tasks.len()
            invariant
                i <= self.tasks.len(),
                tasks == self@.tasks,
                position(tasks, key@) == i + position(tasks.skip(i as int), key@),
            decreases self.tasks.len() - i,
        {
            assert(tasks.skip(i as int)[0] == self.tasks@[i as int]@);
            if text::same(self.tasks[i].key.as_str(), key) {
                return Some(i);
            }
            assert(tasks.skip(i as int).drop_first() =~= tasks.skip(i + 1));
            i += 1;
        }
        None
    }

    /// Whether the config is valid: names, exclusive options, dependencies and
    /// `run` strings. `$VAR`s are checked later, against the merged env.
    pub fn validate(&self) -> (r: Result<(), TsrError>)
        ensures
            match r {
                Ok(_) => tasks_invalid(self@.tasks, 0) is None,
                Err(e) => tasks_invalid(self@.tasks, 0) == Some(e@),
            },
    {
        let ghost tasks = self@.tasks;
        let mut i: usize = 0;
        while i < self.tasks.len()
            invariant
                i <= self.tasks.len(),
                tasks == self@.tasks,
                tasks_invalid(tasks, 0) == tasks_invalid(tasks, i as int),
            decreases self.tasks.len() - i,
        {
            assert(tasks[i as int] == self.tasks@[i as int]@);
            match validate_task(&self.tasks[i]) {
                Ok(_) => {},
                Err(e) => return Err(e),
            }
            i += 1;
        }
        Ok(())
    }
}

/// Whether one task is valid.
fn validate_task(t: &Task) -> (r: Result<(), TsrError>)
    ensures
        match r {
            Ok(_) => task_invalid(t@) is None,
            Err(e) => task_invalid(t@) == Some(e@),
        },
{
    match validate_task_key(t.key.as_str()) {
        Ok(_) => {},
        Err(e) => return Err(e),
    }
    if t.dir.is_some() && t.packages.is_some() {
        return Err(
            task_err(t.key.as_str(), "'dir' and 'packages' are mutually exclusive"),
        );
    }
    let ghost tv = t@;
    let mut i: usize = 0;
    while i < t.deps.len()
        invariant
            i <= t.deps.len(),
            tv == t@,
            key_error(tv.key) is None,
            !(tv.dir is Some && tv.packages is Some),
            deps_error(tv, 0) == deps_error(tv, i as int),
        decreases t.deps.len() - i,
    {
        assert(tv.deps[i as int] == t.deps@[i as int]@);
        match validate_dep_ref(t.key.as_str(), t.packages.is_some(), t.deps[i].as_str()) {
            Ok(_) => {},
            Err(e) => return Err(e),
        }
        i += 1;
    }
    if let Some(run) = &t.run {
        match shell::parse(run.as_str()) {
            Ok(_) => {},
            Err(e) => {
                let m = strip_prefix(&e);
                return Err(task_err(t.key.as_str(), m.as_str()));
            },
        }
    }
    Ok(())
}

/// What an error says, without the words in front of a config error.
pub fn strip_prefix(e: &TsrError) -> (r: String)
    ensures
        r@ == bare_message(e@),
{
    match e {
        TsrError::Config(m) => m.clone(),
        TsrError::Runtime(m) => text::join2("✗ error: ", m.as_str()),
    }
}

/// Whether a task key is legal: an optional `pkg#`, then a name.
fn validate_task_key(key: &str) -> (r: Result<(), TsrError>)
    ensures
        match r {
            Ok(_) => key_error(key@) is None,
            Err(e) => key_error(key@) == Some(e@),
        },
{
    let cs = text::chars(key);
    let parts = text::split_at_char(&cs, '#');
    let ghost views = text::split(key@, '#');
    assert(views.len() == parts.len());
    if parts.len() == 1 {
        assert(views[0] == parts@[0]@);
        validate_name_segment(key, parts[0].as_str())
    } else if parts.len() == 2 {
        assert(views[0] == parts@[0]@ && views[1] == parts@[1]@);
        match validate_name_segment(key, parts[0].as_str()) {
            Ok(_) => validate_name_segment(key, parts[1].as_str()),
            Err(e) => Err(e),
        }
    } else {
        Err(task_err(key, "at most one '#' (package↔task separator) is allowed"))
    }
}

/// Whether a task name typed by a user is legal.
pub fn validate_task_name(name: &str) -> (r: Result<(), TsrError>)
    ensures
        match r {
            Ok(_) => key_error(name@) is None,
            Err(e) => key_error(name@) == Some(e@),
        },
{
    validate_task_key(name)
}

/// Whether one segment of a key is legal.
fn validate_name_segment(key: &str, seg: &str) -> (r: Result<(), TsrError>)
    ensures
        match r {
            Ok(_) => segment_error(key@, seg@) is None,
            Err(e) => segment_error(key@, seg@) == Some(e@),
        },
{
    let cs = text::chars(seg);
    if cs.len() == 0 {
        return Err(task_err(key, "empty name segment"));
    }
    let mut i: usize = 0;
    while i < cs.len()
        invariant
            i <= cs.len(),
            cs@ == seg@,
            seg@.len() > 0,
            illegal_from(seg@, 0) == illegal_from(seg@, i as int),
        decreases cs.len() - i,
    {
        let c = cs[i];
        if !(text::letter(c) || text::digit(c) || c == '_' || c == '-' || c == ':') {
            let bad = text::unit(c);
            let m = text::join3(
                "illegal character '",
                bad.as_str(),
                "' — task names allow only [A-Za-z0-9_:-]",
            );
            return Err(task_err(key, m.as_str()));
        }
        i += 1;
    }
    Ok(())
}

/// The task that a `^task` dependency names.
pub fn upstream_dep(dep: &str) -> (r: Option<String>)
    ensures
        match r {
            Some(name) => upstream(dep@) == Some(name@),
            None => upstream(dep@) is None,
        },
{
    let cs = text::chars(dep);
    if cs.len() > 0 && cs[0] == '^' {
        let name = text::slice(&cs, 1, cs.len());
        assert(dep@.skip(1) =~= cs@.subrange(1, cs.len() as int));
        Some(name)
    } else {
        None
    }
}

/// Whether a dependency is legal: `task`, `pkg#task`, or `^task` where the owner
/// fans out over packages.
fn validate_dep_ref(owner: &str, fans_out: bool, dep: &str) -> (r: Result<(), TsrError>)
    ensures
        match r {
            Ok(_) => dep_error(owner@, fans_out, dep@) is None,
            Err(e) => dep_error(owner@, fans_out, dep@) == Some(e@),
        },
{
    let name = match upstream_dep(dep) {
        Some(name) => {
            if !fans_out {
                let m = text::join3(
                    "upstream dep '",
                    dep,
                    "' (the v1.1 '^' marker) requires 'packages'",
                );
                return Err(task_err(owner, m.as_str()));
            }
            name
        },
        None => dep.to_string(),
    };
    match validate_task_key(name.as_str()) {
        Ok(_) => Ok(()),
        Err(_) => {
            let m = text::join3("invalid dependency '", dep, "'");
            Err(task_err(owner, m.as_str()))
        },
    }
}

/// Whether a text is a valid config.
pub fn validate_str(text: &str) -> (r: Result<(), TsrError>)
    ensures
        match r {
            Ok(_) => valid_config(toml::toml_entries(text@), "."@) is Ok,
            Err(e) => valid_config(toml::toml_entries(text@), "."@) == Err::<
                ConfigView,
                ErrorView,
            >(e@),
        },
{
    match Config::load(text, ".") {
        Ok(_) => Ok(()),
        Err(e) => Err(e),
    }
}

// ---------------------------------------------------------------------------
// Discovery
// ---------------------------------------------------------------------------
/// What there is to know of one directory on the way up.
#[derive(Debug, Clone, Copy, PartialEq, Eq, Structural)]
pub struct DirFacts {
    /// It holds a `tasks.toml`.
    pub has_config: bool,
    /// It holds `.git`: a repository's root.
    pub is_repository: bool,
    /// It is the user's home directory.
    pub is_home: bool,
    /// It is on another file system than the directory the walk started in.
    pub other_filesystem: bool,
    /// It holds an ecosystem marker such as `package.json`.
    pub has_marker: bool,
}

/// A directory and those above it, nearest first.
pub open spec fn upward(dir: Seq<char>) -> Seq<Seq<char>> {
    let parts = path::components(dir);
    Seq::new(
        parts.len() + 1,
        |i: int| path::rendered(path::is_absolute(dir), parts.take(parts.len() - i)),
    )
}

/// Whether the walk up ends before this directory is looked at. The directory
/// it starts in is always looked at.
pub open spec fn out_of_bounds(facts: Seq<DirFacts>, i: int) -> bool {
    i > 0 && (facts[i].is_home || facts[i].other_filesystem)
}

/// The directory, from `from` on, whose config governs: the nearest one that
/// holds one, up to and with the repository root, and short of the home
/// directory and of another file system.
pub open spec fn governing(facts: Seq<DirFacts>, from: int) -> Option<int>
    decreases facts.len() - from,
{
    if from >= facts.len() || out_of_bounds(facts, from) {
        None
    } else if facts[from].has_config {
        Some(from)
    } else if facts[from].is_repository {
        None
    } else {
        governing(facts, from + 1)
    }
}

/// The nearest directory, from `from` on, that holds an ecosystem marker.
pub open spec fn nearest_marker(facts: Seq<DirFacts>, from: int) -> Option<int>
    decreases facts.len() - from,
{
    if from >= facts.len() {
        None
    } else if facts[from].has_marker {
        Some(from)
    } else {
        nearest_marker(facts, from + 1)
    }
}

/// A directory and those above it, nearest first.
pub fn ancestors(dir: &str) -> (r: Vec<String>)
    ensures
        text::texts(r@) == upward(dir@),
{
    let parts = path::parts(dir);
    let absolute = path::absolute(dir);
    let ghost all = path::components(dir@);
    let mut out: Vec<String> = Vec::new();
    let n = parts.len();
    let mut left = parts;
    assert(all.take(n as int) =~= all);
    loop
        invariant_except_break
            left.len() <= n,
            text::texts(left@) == all.take(left.len() as int),
            out.len() == n - left.len(),
        invariant
            all == path::components(dir@),
            absolute == path::is_absolute(dir@),
            n == all.len(),
            forall|i: int|
                0 <= i < out.len() ==> (#[trigger] out@[i])@ == path::rendered(
                    absolute,
                    all.take(n - i),
                ),
        ensures
            out.len() == n + 1,
        decreases left.len(),
    {
        out.push(path::render(absolute, &left));
        if left.len() == 0 {
            break;
        }
        let ghost before = text::texts(left@);
        left.pop();
        assert(text::texts(left@) =~= before.drop_last());
        assert(text::texts(left@) =~= all.take(left.len() as int));
    }
    assert(text::texts(out@) =~= upward(dir@));
    out
}

/// Which of the directories on the way up holds the config that governs.
pub fn locate(facts: &Vec<DirFacts>) -> (r: Option<usize>)
    ensures
        match r {
            Some(i) => i < facts.len() && governing(facts@, 0) == Some(i as int),
            None => governing(facts@, 0) is None,
        },
{
    let mut i: usize = 0;
    while i < facts.len()
        invariant
            i <= facts.len(),
            governing(facts@, 0) == governing(facts@, i as int),
        decreases facts.len() - i,
    {
        let f = facts[i];
        if i > 0 && (f.is_home || f.other_filesystem) {
            return None;
        }
        if f.has_config {
            return Some(i);
        }
        if f.is_repository {
            return None;
        }
        i += 1;
    }
    None
}

/// Which of the directories on the way up is the nearest with an ecosystem
/// marker: where a task runs when there is no config.
pub fn nearest_package_root(facts: &Vec<DirFacts>) -> (r: Option<usize>)
    ensures
        match r {
            Some(i) => i < facts.len() && nearest_marker(facts@, 0) == Some(i as int),
            None => nearest_marker(facts@, 0) is None,
        },
{
    let mut i: usize = 0;
    while i < facts.len()
        invariant
            i <= facts.len(),
            nearest_marker(facts@, 0) == nearest_marker(facts@, i as int),
        decreases facts.len() - i,
    {
        if facts[i].has_marker {
            return Some(i);
        }
        i += 1;
    }
    None
}

/// The config of a repository that has none: one bare task, so that its
/// package's own runner is used.
pub open spec fn implicit_view(root: Seq<char>, task: Seq<char>) -> ConfigView {
    ConfigView {
        root,
        members: Seq::empty(),
        env: Seq::empty(),
        allow_paths: Seq::empty(),
        tasks: seq![bare_task(task)],
        implicit: true,
    }
}

/// The config of a repository that has none, for one task.
pub fn implicit(root: &str, task: &str) -> (cfg: Config)
    ensures
        cfg@ == implicit_view(root@, task@),
        toml::document_entries(cfg.doc) == Seq::<(Seq<char>, toml::TomlView)>::empty(),
        toml::document_layout(cfg.doc) == toml::no_layout(),
{
    let mut tasks: Vec<Task> = Vec::new();
    tasks.push(Task::new(task));
    let cfg = Config {
        root: root.to_string(),
        members: Vec::new(),
        env: Vec::new(),
        allow_paths: Vec::new(),
        tasks,
        implicit: true,
        doc: toml::empty_document(),
    };
    assert(cfg@.members =~= Seq::empty());
    assert(cfg@.env =~= Seq::empty());
    assert(cfg@.allow_paths =~= Seq::empty());
    assert(cfg@.tasks =~= seq![bare_task(task@)]);
    cfg
}

/// Whether a mode lets anyone write.
pub open spec fn world_writable(mode: u32) -> bool {
    (mode / 2) % 2 == 1
}

/// Whether a directory's mode keeps users from replacing each other's files.
pub open spec fn sticky(mode: u32) -> bool {
    (mode / 512) % 2 == 1
}

/// Whether anyone could choose what a file says: it is world-writable, or its
/// directory is and is not sticky.
pub open spec fn exposed(file_mode: u32, dir_mode: u32) -> bool {
    world_writable(file_mode) || (world_writable(dir_mode) && !sticky(dir_mode))
}

/// Refuse a file that decides what runs when anyone could have written it.
pub fn check_permissions(file: &str, file_mode: u32, dir_mode: u32) -> (r: Result<(), TsrError>)
    ensures
        match r {
            Ok(_) => !exposed(file_mode, dir_mode),
            Err(e) => exposed(file_mode, dir_mode) && e@ == ErrorView::Config(
                "'"@ + file@ + if world_writable(file_mode) {
                    "' is world-writable: anyone could choose what it runs — remove the permission (chmod o-w)"@
                } else {
                    "' is in a world-writable directory: anyone could choose what it runs — remove the permission (chmod o-w)"@
                },
            ),
        },
{
    if (file_mode / 2) % 2 == 1 {
        return Err(
            TsrError::Config(
                text::join3(
                    "'",
                    file,
                    "' is world-writable: anyone could choose what it runs — remove the permission (chmod o-w)",
                ),
            ),
        );
    }
    if (dir_mode / 2) % 2 == 1 && (dir_mode / 512) % 2 != 1 {
        return Err(
            TsrError::Config(
                text::join3(
                    "'",
                    file,
                    "' is in a world-writable directory: anyone could choose what it runs — remove the permission (chmod o-w)",
                ),
            ),
        );
    }
    Ok(())
}

/// The error when no config is found.
fn not_found(start: &str) -> (e: TsrError)
    ensures
        e@ == ErrorView::Config(
            "no 'tasks.toml' found in '"@ + start@ + "' or any parent directory"@,
        ),
{
    TsrError::Config(
        text::join3("no 'tasks.toml' found in '", start, "' or any parent directory"),
    )
}

// ---------------------------------------------------------------------------
// Laws
// ---------------------------------------------------------------------------
proof fn lemma_put_keeps_order(tasks: Seq<TaskView>, t: TaskView)
    requires
        ordered(tasks),
    ensures
        ordered(put_task(tasks, t)),
        forall|i: int|
            0 <= i < put_task(tasks, t).len() ==> (#[trigger] put_task(tasks, t)[i]).key == t.key
                || exists|j: int| 0 <= j < tasks.len() && tasks[j] == put_task(tasks, t)[i],
        put_task(tasks, t).contains(t),
    decreases tasks.len(),
{
    let r = put_task(tasks, t);
    if tasks.len() == 0 {
        assert(r[0] == t);
    } else {
        let last = tasks.last();
        let front = tasks.drop_last();
        assert(ordered(front));
        if last.key == t.key {
            assert(r.last() == t);
            assert forall|i: int, j: int| 0 <= i < j < r.len() implies text::le(
                (#[trigger] r[i]).key,
                (#[trigger] r[j]).key,
            ) && r[i].key != r[j].key by {
                assert(text::le(tasks[i].key, tasks[j].key) && tasks[i].key != tasks[j].key);
            }
            assert forall|i: int| 0 <= i < r.len() implies (#[trigger] r[i]).key == t.key || exists|
                j: int,
            |
                0 <= j < tasks.len() && tasks[j] == r[i] by {
                if i < front.len() {
                    assert(tasks[i] == r[i]);
                }
            }
        } else if text::le(last.key, t.key) {
            assert(r.last() == t);
            assert forall|i: int, j: int| 0 <= i < j < r.len() implies text::le(
                (#[trigger] r[i]).key,
                (#[trigger] r[j]).key,
            ) && r[i].key != r[j].key by {
                if j < tasks.len() {
                    assert(tasks[i] == r[i] && tasks[j] == r[j]);
                } else if i < front.len() {
                    assert(text::le(tasks[i].key, tasks[tasks.len() - 1].key));
                    text::lemma_le_transitive(tasks[i].key, last.key, t.key);
                    if tasks[i].key == t.key {
                        text::lemma_le_total(tasks[i].key, last.key);
                    }
                }
            }
            assert forall|i: int| 0 <= i < r.len() implies (#[trigger] r[i]).key == t.key || exists|
                j: int,
            |
                0 <= j < tasks.len() && tasks[j] == r[i] by {
                if i < tasks.len() {
                    assert(tasks[i] == r[i]);
                }
            }
        } else {
            let p = put_task(front, t);
            lemma_put_keeps_order(front, t);
            text::lemma_le_total(last.key, t.key);
            assert forall|i: int| 0 <= i < p.len() implies text::le((#[trigger] p[i]).key, last.key)
                && p[i].key != last.key by {
                if p[i].key != t.key {
                    let j = choose|j: int| 0 <= j < front.len() && front[j] == p[i];
                    assert(tasks[j] == p[i]);
                    assert(text::le(tasks[j].key, tasks[tasks.len() - 1].key));
                }
            }
            assert forall|i: int, j: int| 0 <= i < j < r.len() implies text::le(
                (#[trigger] r[i]).key,
                (#[trigger] r[j]).key,
            ) && r[i].key != r[j].key by {
                if j < p.len() {
                    assert(p[i] == r[i] && p[j] == r[j]);
                } else {
                    assert(p[i] == r[i]);
                }
            }
            assert forall|i: int| 0 <= i < r.len() implies (#[trigger] r[i]).key == t.key || exists|
                j: int,
            |
                0 <= j < tasks.len() && tasks[j] == r[i] by {
                if i < p.len() {
                    assert(p[i] == r[i]);
                    if p[i].key != t.key {
                        let j = choose|j: int| 0 <= j < front.len() && front[j] == p[i];
                        assert(tasks[j] == r[i]);
                    }
                } else {
                    assert(tasks[tasks.len() - 1] == r[i]);
                }
            }
            let k = choose|k: int| 0 <= k < p.len() && p[k] == t;
            assert(r[k] == t);
        }
    }
}

proof fn lemma_tasks_ordered(e: toml::Entries, n: int)
    requires
        0 <= n <= e.len(),
    ensures
        tasks_of(e, n) matches Ok(tasks) ==> ordered(tasks),
    decreases n,
{
    if n > 0 {
        lemma_tasks_ordered(e, n - 1);
        if let Ok(tasks) = tasks_of(e, n - 1) {
            if let Ok(t) = task_of(e[n - 1].0, e[n - 1].1) {
                lemma_put_keeps_order(tasks, t);
            }
        }
    }
}

/// The tasks of a config are in key order and no key occurs twice, so a key names
/// at most one task.
pub proof fn law_tasks_are_in_key_order(read: Result<toml::Entries, Seq<char>>, root: Seq<char>)
    ensures
        parsed_config(read, root) matches Ok(c) ==> {
            &&& ordered(c.tasks)
            &&& forall|i: int|
                0 <= i < c.tasks.len() ==> find_task(c.tasks, (#[trigger] c.tasks[i]).key) == Some(
                    c.tasks[i],
                )
        },
{
    if let Ok(c) = parsed_config(read, root) {
        let e = read->Ok_0;
        if let Some(t) = toml::table_at(e, "tasks"@) {
            lemma_tasks_ordered(t, t.len() as int);
        }
        assert(ordered(c.tasks));
        assert forall|i: int| 0 <= i < c.tasks.len() implies find_task(
            c.tasks,
            (#[trigger] c.tasks[i]).key,
        ) == Some(c.tasks[i]) by {
            lemma_position(c.tasks, c.tasks[i].key);
            let p = position(c.tasks, c.tasks[i].key);
            if p < i {
                assert(c.tasks[p].key == c.tasks[i].key);
            }
        }
    }
}

proof fn lemma_each_task_valid(tasks: Seq<TaskView>, from: int)
    requires
        0 <= from <= tasks.len(),
        tasks_invalid(tasks, from) is None,
    ensures
        forall|i: int| from <= i < tasks.len() ==> task_invalid(#[trigger] tasks[i]) is None,
    decreases tasks.len() - from,
{
    if from < tasks.len() {
        lemma_each_task_valid(tasks, from + 1);
    }
}

proof fn lemma_each_dep_valid(t: TaskView, from: int)
    requires
        0 <= from <= t.deps.len(),
        deps_error(t, from) is None,
    ensures
        forall|i: int|
            from <= i < t.deps.len() ==> dep_error(t.key, t.packages is Some, #[trigger] t.deps[i])
                is None,
    decreases t.deps.len() - from,
{
    if from < t.deps.len() {
        lemma_each_dep_valid(t, from + 1);
    }
}

/// What a valid config promises of each of its tasks: a legal key, not both
/// `dir` and `packages`, legal dependencies with `^` only where the task fans
/// out, and a `run` string that has a plan.
pub proof fn law_valid_config(read: Result<toml::Entries, Seq<char>>, root: Seq<char>, i: int)
    ensures
        valid_config(read, root) matches Ok(c) ==> (0 <= i < c.tasks.len() ==> {
            let t = c.tasks[i];
            &&& key_error(t.key) is None
            &&& !(t.dir is Some && t.packages is Some)
            &&& forall|d: int|
                0 <= d < t.deps.len() ==> dep_error(
                    t.key,
                    t.packages is Some,
                    #[trigger] t.deps[d],
                ) is None
            &&& t.run matches Some(run) ==> shell::plan(run) is Ok
        }),
{
    if let Ok(c) = valid_config(read, root) {
        if 0 <= i < c.tasks.len() {
            lemma_each_task_valid(c.tasks, 0);
            assert(task_invalid(c.tasks[i]) is None);
            lemma_each_dep_valid(c.tasks[i], 0);
        }
    }
}

proof fn lemma_governing(facts: Seq<DirFacts>, from: int)
    requires
        0 <= from <= facts.len(),
    ensures
        governing(facts, from) matches Some(i) ==> {
            &&& from <= i < facts.len()
            &&& facts[i].has_config
            &&& forall|j: int| from <= j <= i ==> !#[trigger] out_of_bounds(facts, j)
            &&& forall|j: int|
                from <= j < i ==> !(#[trigger] facts[j]).has_config && !facts[j].is_repository
        },
    decreases facts.len() - from,
{
    if from < facts.len() && !out_of_bounds(facts, from) && !facts[from].has_config
        && !facts[from].is_repository {
        lemma_governing(facts, from + 1);
    }
}

/// The config that governs is the nearest one, and no boundary lies between it
/// and the directory the walk started in: no repository root below it, and
/// neither the home directory nor another file system on the way.
pub proof fn law_discovery_is_bounded(facts: Seq<DirFacts>)
    ensures
        governing(facts, 0) matches Some(i) ==> {
            &&& 0 <= i < facts.len()
            &&& facts[i].has_config
            &&& forall|j: int|
                0 <= j < i ==> !(#[trigger] facts[j]).has_config && !facts[j].is_repository
            &&& forall|j: int|
                0 < j <= i ==> !(#[trigger] facts[j]).is_home && !facts[j].other_filesystem
        },
{
    lemma_governing(facts, 0);
    if let Some(i) = governing(facts, 0) {
        assert forall|j: int| 0 < j <= i implies !(#[trigger] facts[j]).is_home
            && !facts[j].other_filesystem by {
            assert(!out_of_bounds(facts, j));
        }
    }
}

/// Whether a value is an array of exactly these strings.
pub open spec fn lists(v: TomlView, items: Seq<Seq<char>>) -> bool {
    v matches TomlView::Array(a) && a.len() == items.len() && forall|i: int|
        0 <= i < items.len() ==> #[trigger] a[i] == TomlView::Str(items[i])
}

/// Whether a table holds exactly these strings under these keys, in this order.
pub open spec fn tables(v: TomlView, pairs: Seq<(Seq<char>, Seq<char>)>) -> bool {
    (v is Table || v is Inline) && {
        let e = if v is Table {
            v->Table_0
        } else {
            v->Inline_0
        };
        e.len() == pairs.len() && forall|i: int|
            0 <= i < pairs.len() ==> #[trigger] e[i] == (pairs[i].0, TomlView::Str(pairs[i].1))
    }
}

/// Whether a value names this backend.
pub open spec fn delegates(v: TomlView, d: DelegateView) -> bool {
    match d {
        DelegateView::Bin(s) => s.len() > 0 && v == TomlView::Str(s),
        DelegateView::Full { bin, args } => (v is Table || v is Inline) && {
            let e = if v is Table {
                v->Table_0
            } else {
                v->Inline_0
            };
            &&& toml::lookup(e, "bin"@) == Some(TomlView::Str(bin))
            &&& match toml::lookup(e, "args"@) {
                Some(a) => lists(a, args),
                None => args.len() == 0,
            }
        },
    }
}

/// Whether a task's field of this name says what the value says; with no value it
/// says nothing.
pub open spec fn says(t: TaskView, name: Seq<char>, v: Option<TomlView>) -> bool {
    &&& name == "run"@ ==> match v {
        Some(v) => t.run is Some && v == TomlView::Str(t.run->0),
        None => t.run is None,
    }
    &&& name == "dir"@ ==> match v {
        Some(v) => t.dir is Some && v == TomlView::Str(t.dir->0),
        None => t.dir is None,
    }
    &&& name == "delegate"@ ==> match v {
        Some(v) => t.delegate is Some && delegates(v, t.delegate->0),
        None => t.delegate is None,
    }
    &&& name == "packages"@ ==> match v {
        Some(v) => t.packages is Some && lists(v, t.packages->0),
        None => t.packages is None,
    }
    &&& name == "deps"@ ==> match v {
        Some(v) => lists(v, t.deps),
        None => t.deps.len() == 0,
    }
    &&& name == "args"@ ==> match v {
        Some(v) => lists(v, t.args),
        None => t.args.len() == 0,
    }
    &&& name == "parallel"@ ==> match v {
        Some(v) => v == TomlView::Bool(t.parallel),
        None => !t.parallel,
    }
    &&& name == "env"@ ==> match v {
        Some(v) => tables(v, t.env),
        None => t.env.len() == 0,
    }
    &&& name == "env_file"@ ==> match v {
        Some(TomlView::Str(s)) => t.env_files == seq![s],
        Some(v) => lists(v, t.env_files),
        None => t.env_files.len() == 0,
    }
}

proof fn lemma_field_names()
    ensures
        "run"@ != "dir"@ && "run"@ != "delegate"@ && "run"@ != "packages"@ && "run"@ != "deps"@
            && "run"@ != "args"@ && "run"@ != "parallel"@ && "run"@ != "env"@ && "run"@
            != "env_file"@,
        "dir"@ != "delegate"@ && "dir"@ != "packages"@ && "dir"@ != "deps"@ && "dir"@ != "args"@
            && "dir"@ != "parallel"@ && "dir"@ != "env"@ && "dir"@ != "env_file"@,
        "delegate"@ != "packages"@ && "delegate"@ != "deps"@ && "delegate"@ != "args"@
            && "delegate"@ != "parallel"@ && "delegate"@ != "env"@ && "delegate"@ != "env_file"@,
        "packages"@ != "deps"@ && "packages"@ != "args"@ && "packages"@ != "parallel"@
            && "packages"@ != "env"@ && "packages"@ != "env_file"@,
        "deps"@ != "args"@ && "deps"@ != "parallel"@ && "deps"@ != "env"@ && "deps"@ != "env_file"@,
        "args"@ != "parallel"@ && "args"@ != "env"@ && "args"@ != "env_file"@,
        "parallel"@ != "env"@ && "parallel"@ != "env_file"@,
        "env"@ != "env_file"@,
{
    reveal_strlit("run");
    reveal_strlit("delegate");
    reveal_strlit("dir");
    reveal_strlit("packages");
    reveal_strlit("deps");
    reveal_strlit("args");
    reveal_strlit("parallel");
    reveal_strlit("env");
    reveal_strlit("env_file");
    assert("run"@[0] == 'r' && "run"@.len() == 3);
    assert("dir"@[0] == 'd' && "dir"@.len() == 3);
    assert("env"@[0] == 'e' && "env"@.len() == 3);
    assert("deps"@[0] == 'd' && "deps"@.len() == 4);
    assert("args"@[0] == 'a' && "args"@.len() == 4);
    assert("delegate"@[0] == 'd' && "delegate"@.len() == 8);
    assert("packages"@[2] == 'c' && "packages"@[0] == 'p' && "packages"@.len() == 8);
    assert("parallel"@[2] == 'r' && "parallel"@[0] == 'p' && "parallel"@.len() == 8);
    assert("env_file"@[0] == 'e' && "env_file"@.len() == 8);
}

proof fn lemma_string_array(v: TomlView, ctx: Seq<char>)
    ensures
        string_array(v, ctx) matches Ok(items) ==> lists(v, items),
        string_array(v, ctx) is Ok <==> v is Array && forall|i: int|
            0 <= i < v->Array_0.len() ==> (#[trigger] v->Array_0[i]) is Str,
{
    if let Ok(items) = string_array(v, ctx) {
        let a = v->Array_0;
        assert forall|i: int| 0 <= i < items.len() implies #[trigger] a[i] == TomlView::Str(
            items[i],
        ) by {
            assert(a[i] is Str);
        }
    }
}

proof fn lemma_string_pairs(e: toml::Entries, n: int, ctx: Seq<char>)
    requires
        0 <= n <= e.len(),
    ensures
        string_pairs(e, n, ctx) matches Ok(pairs) ==> pairs.len() == n && forall|i: int|
            0 <= i < n ==> #[trigger] e[i] == (pairs[i].0, TomlView::Str(pairs[i].1)),
        string_pairs(e, n, ctx) is Ok <==> forall|i: int|
            0 <= i < n ==> (#[trigger] e[i]).1 is Str,
        string_pairs(e, n, ctx) is Err ==> string_pairs(e, n, ctx)->Err_0 is Config,
    decreases n,
{
    if n > 0 {
        lemma_string_pairs(e, n - 1, ctx);
        if let Ok(pairs) = string_pairs(e, n, ctx) {
            let front = string_pairs(e, n - 1, ctx)->Ok_0;
            assert(pairs == front.push((e[n - 1].0, e[n - 1].1->Str_0)));
            assert forall|i: int| 0 <= i < n implies #[trigger] e[i] == (
                pairs[i].0,
                TomlView::Str(pairs[i].1),
            ) by {
                if i < n - 1 {
                    assert(pairs[i] == front[i]);
                }
            }
        }
        if forall|i: int| 0 <= i < n ==> (#[trigger] e[i]).1 is Str {
            assert(e[n - 1].1 is Str);
        }
    }
}

proof fn lemma_env_table(v: TomlView, ctx: Seq<char>)
    ensures
        env_table(v, ctx) matches Ok(pairs) ==> tables(v, pairs),
        env_table(v, ctx) is Ok <==> is_string_table(v),
        env_table(v, ctx) is Err ==> env_table(v, ctx)->Err_0 is Config,
{
    if let Some(e) = toml::fields(v) {
        lemma_string_pairs(e, e.len() as int, ctx);
    }
}

/// Whether a value is an array of strings.
pub open spec fn is_string_array(v: TomlView) -> bool {
    v is Array && forall|i: int| 0 <= i < v->Array_0.len() ==> (#[trigger] v->Array_0[i]) is Str
}

/// Whether a value is a table of strings.
pub open spec fn is_string_table(v: TomlView) -> bool {
    ||| v is Table && forall|i: int| 0 <= i < v->Table_0.len() ==> (#[trigger] v->Table_0[i]).1 is Str
    ||| v is Inline && forall|i: int|
        0 <= i < v->Inline_0.len() ==> (#[trigger] v->Inline_0[i]).1 is Str
}

/// Whether a table names a backend: a string `bin`, and `args` an array of strings
/// where there are any.
pub open spec fn is_backend_table(e: toml::Entries) -> bool {
    &&& toml::lookup(e, "bin"@) is Some && toml::lookup(e, "bin"@)->0 is Str
    &&& toml::lookup(e, "args"@) is Some ==> is_string_array(toml::lookup(e, "args"@)->0)
}

/// Whether a field of a task's table has a value of its type. Any value will do for
/// a field of another name.
pub open spec fn is_typed(name: Seq<char>, v: TomlView) -> bool {
    &&& name == "run"@ || name == "dir"@ ==> v is Str
    &&& name == "parallel"@ ==> v is Bool
    &&& name == "packages"@ || name == "deps"@ || name == "args"@ ==> is_string_array(v)
    &&& name == "env_file"@ ==> v is Str || is_string_array(v)
    &&& name == "env"@ ==> is_string_table(v)
    &&& name == "delegate"@ ==> {
        ||| v is Str && v->Str_0.len() > 0
        ||| v is Table && is_backend_table(v->Table_0)
        ||| v is Inline && is_backend_table(v->Inline_0)
    }
}

proof fn lemma_delegate(v: TomlView, key: Seq<char>)
    ensures
        delegate_of(v, key) matches Ok(d) ==> delegates(v, d),
        delegate_of(v, key) is Ok <==> {
            ||| v is Str && v->Str_0.len() > 0
            ||| v is Table && is_backend_table(v->Table_0)
            ||| v is Inline && is_backend_table(v->Inline_0)
        },
{
    if let Some(e) = toml::fields(v) {
        if let Some(a) = toml::lookup(e, "args"@) {
            lemma_string_array(a, field_path(key, "delegate.args"@));
        }
    }
}

proof fn lemma_with_field(t: TaskView, at: Seq<char>, v: TomlView, name: Seq<char>, w: Option<TomlView>)
    ensures
        with_field(t, at, v) is Ok <==> is_typed(at, v),
        with_field(t, at, v) matches Ok(u) ==> {
            &&& u.key == t.key
            &&& says(u, at, Some(v))
            &&& at != name && says(t, name, w) ==> says(u, name, w)
        },
{
    lemma_field_names();
    lemma_delegate(v, t.key);
    lemma_string_array(v, field_path(t.key, "packages"@));
    lemma_string_array(v, field_path(t.key, "deps"@));
    lemma_string_array(v, field_path(t.key, "args"@));
    lemma_string_array(v, field_path(t.key, "env_file"@));
    lemma_env_table(v, field_path(t.key, "env"@));
}

proof fn lemma_task_fields(key: Seq<char>, e: toml::Entries, n: int, i: int, name: Seq<char>)
    requires
        0 <= n <= e.len(),
        toml::distinct(e),
    ensures
        task_fields(key, e, n) is Ok <==> forall|k: int|
            0 <= k < n ==> is_typed((#[trigger] e[k]).0, e[k].1),
        task_fields(key, e, n) matches Ok(t) ==> {
            &&& t.key == key
            &&& 0 <= i < n ==> says(t, e[i].0, Some(e[i].1))
            &&& (forall|k: int| 0 <= k < n ==> (#[trigger] e[k]).0 != name) ==> says(t, name, None)
        },
    decreases n,
{
    if n > 0 {
        lemma_task_fields(key, e, n - 1, i, name);
        let at = e[n - 1].0;
        let v = e[n - 1].1;
        if let Ok(t) = task_fields(key, e, n - 1) {
            lemma_with_field(t, at, v, name, None);
            if 0 <= i < n - 1 {
                assert(e[i].0 != e[n - 1].0);
                lemma_with_field(t, at, v, e[i].0, Some(e[i].1));
            }
        }
        if forall|k: int| 0 <= k < n ==> is_typed((#[trigger] e[k]).0, e[k].1) {
            assert(is_typed(e[n - 1].0, e[n - 1].1));
        }
    } else {
        lemma_field_names();
    }
}

/// A task's table describes the task: each field says what is written there, a field
/// that is not written says nothing, and other fields do not count. The table is
/// refused exactly if one of the fields has a value of another type.
pub proof fn law_task_tables(key: Seq<char>, e: toml::Entries, i: int, name: Seq<char>)
    requires
        toml::distinct(e),
    ensures
        task_of(key, TomlView::Inline(e)) == task_of(key, TomlView::Table(e)),
        task_of(key, TomlView::Table(e)) is Ok <==> forall|k: int|
            0 <= k < e.len() ==> is_typed((#[trigger] e[k]).0, e[k].1),
        task_of(key, TomlView::Table(e)) matches Ok(t) ==> {
            &&& t.key == key
            &&& 0 <= i < e.len() ==> says(t, e[i].0, Some(e[i].1))
            &&& (forall|k: int| 0 <= k < e.len() ==> (#[trigger] e[k]).0 != name) ==> says(
                t,
                name,
                None,
            )
        },
{
    lemma_task_fields(key, e, e.len() as int, i, name);
}

/// A task that is no table is refused, and the error names it.
pub proof fn law_tasks_are_tables(key: Seq<char>, v: TomlView)
    requires
        !(v is Table),
        !(v is Inline),
    ensures
        task_of(key, v) matches Err(ErrorView::Config(m)) && m == "task '"@ + key
            + "' must be a table"@,
{
}

/// A field of the wrong type is refused with an error that names the task and the
/// field, whatever comes behind it.
pub proof fn law_bad_fields_are_named(key: Seq<char>, e: toml::Entries, i: int)
    requires
        0 <= i < e.len(),
        toml::distinct(e),
        forall|k: int| 0 <= k < i ==> is_typed((#[trigger] e[k]).0, e[k].1),
        !is_typed(e[i].0, e[i].1),
    ensures
        task_of(key, TomlView::Table(e)) matches Err(ErrorView::Config(m)) && {
            &&& e[i].0 == "run"@ ==> m == "task '"@ + key + "': "@ + "'run' must be a string"@
            &&& e[i].0 == "dir"@ ==> m == "task '"@ + key + "': "@ + "'dir' must be a string"@
            &&& e[i].0 == "parallel"@ ==> m == "task '"@ + key + "': "@
                + "'parallel' must be a boolean"@
            &&& (e[i].0 == "packages"@ || e[i].0 == "deps"@ || e[i].0 == "args"@)
                && !(e[i].1 is Array) ==> m == "'"@ + ("tasks."@ + key + "."@ + e[i].0)
                + "' must be an array of strings"@
            &&& (e[i].0 == "packages"@ || e[i].0 == "deps"@ || e[i].0 == "args"@ || e[i].0
                == "env_file"@) && e[i].1 is Array ==> m == "'"@ + ("tasks."@ + key + "."@ + e[i].0)
                + "' must contain only strings"@
            &&& e[i].0 == "env"@ && !(e[i].1 is Table) && !(e[i].1 is Inline) ==> m == "'"@ + (
            "tasks."@ + key + "."@ + e[i].0) + "' must be a table"@
        },
{
    lemma_task_fields(key, e, i, 0, ""@);
    let t = task_fields(key, e, i)->Ok_0;
    lemma_with_field(t, e[i].0, e[i].1, ""@, None);
    lemma_field_names();
    lemma_fails_on(key, e, i + 1, e.len() as int);
    lemma_string_array(e[i].1, field_path(key, e[i].0));
    lemma_env_table(e[i].1, field_path(key, "env"@));
}

proof fn lemma_fails_on(key: Seq<char>, e: toml::Entries, n: int, m: int)
    requires
        0 <= n <= m <= e.len(),
        task_fields(key, e, n) is Err,
    ensures
        task_fields(key, e, m) == task_fields(key, e, n),
    decreases m - n,
{
    if n < m {
        lemma_fails_on(key, e, n, m - 1);
    }
}

proof fn lemma_put_holds(tasks: Seq<TaskView>, t: TaskView, u: TaskView)
    requires
        ordered(tasks),
    ensures
        put_task(tasks, t).contains(t),
        tasks.contains(u) && u.key != t.key ==> put_task(tasks, t).contains(u),
        put_task(tasks, t).contains(u) ==> u == t || tasks.contains(u) && u.key != t.key,
        (forall|i: int| 0 <= i < tasks.len() ==> (#[trigger] tasks[i]).key != t.key) ==> put_task(
            tasks,
            t,
        ).len() == tasks.len() + 1,
    decreases tasks.len(),
{
    let r = put_task(tasks, t);
    if tasks.len() == 0 {
        assert(r[0] == t);
    } else {
        let front = tasks.drop_last();
        let last = tasks.last();
        assert(r.last() == t || r.last() == last);
        assert(ordered(front));
        if last.key == t.key {
            assert(r[r.len() - 1] == t);
            if tasks.contains(u) && u.key != t.key {
                let i = choose|i: int| 0 <= i < tasks.len() && tasks[i] == u;
                assert(r[i] == u);
            }
            if r.contains(u) {
                let i = choose|i: int| 0 <= i < r.len() && r[i] == u;
                if i < front.len() {
                    assert(tasks[i] == u);
                    assert(tasks[i].key != tasks[tasks.len() - 1].key);
                }
            }
            if forall|i: int| 0 <= i < tasks.len() ==> (#[trigger] tasks[i]).key != t.key {
                assert(tasks[tasks.len() - 1].key != t.key);
            }
        } else if text::le(last.key, t.key) {
            assert(r[r.len() - 1] == t);
            if tasks.contains(u) && u.key != t.key {
                let i = choose|i: int| 0 <= i < tasks.len() && tasks[i] == u;
                assert(r[i] == u);
            }
            if r.contains(u) && u != t {
                let i = choose|i: int| 0 <= i < r.len() && r[i] == u;
                assert(tasks[i] == u);
                if u.key == t.key {
                    text::lemma_le_total(u.key, last.key);
                    if i < tasks.len() - 1 {
                        assert(text::le(tasks[i].key, tasks[tasks.len() - 1].key));
                    }
                }
            }
        } else {
            let p = put_task(front, t);
            lemma_put_holds(front, t, u);
            let k = choose|k: int| 0 <= k < p.len() && p[k] == t;
            assert(r[k] == t);
            if tasks.contains(u) && u.key != t.key {
                let i = choose|i: int| 0 <= i < tasks.len() && tasks[i] == u;
                if i < front.len() {
                    assert(front[i] == u);
                    let j = choose|j: int| 0 <= j < p.len() && p[j] == u;
                    assert(r[j] == u);
                } else {
                    assert(r[r.len() - 1] == u);
                }
            }
            if r.contains(u) && u != t {
                let i = choose|i: int| 0 <= i < r.len() && r[i] == u;
                if i < p.len() {
                    assert(p[i] == u);
                    assert(front.contains(u));
                    let j = choose|j: int| 0 <= j < front.len() && front[j] == u;
                    assert(tasks[j] == u);
                } else {
                    assert(tasks[tasks.len() - 1] == u);
                }
            }
            if forall|i: int| 0 <= i < tasks.len() ==> (#[trigger] tasks[i]).key != t.key {
                assert forall|i: int| 0 <= i < front.len() implies (#[trigger] front[i]).key
                    != t.key by {
                    assert(tasks[i] == front[i]);
                }
            }
        }
    }
}

proof fn lemma_tasks_of(e: toml::Entries, n: int, i: int)
    requires
        0 <= n <= e.len(),
        toml::distinct(e),
    ensures
        tasks_of(e, n) is Ok <==> forall|k: int|
            0 <= k < n ==> task_of((#[trigger] e[k]).0, e[k].1) is Ok,
        tasks_of(e, n) matches Ok(tasks) ==> {
            &&& tasks.len() == n
            &&& forall|k: int|
                0 <= k < n ==> tasks.contains(task_of((#[trigger] e[k]).0, e[k].1)->Ok_0)
            &&& 0 <= i < tasks.len() ==> exists|k: int|
                0 <= k < n && task_of((#[trigger] e[k]).0, e[k].1) == Ok::<TaskView, ErrorView>(
                    tasks[i],
                )
        },
    decreases n,
{
    if n > 0 {
        if forall|k: int| 0 <= k < n ==> task_of((#[trigger] e[k]).0, e[k].1) is Ok {
            assert(task_of(e[n - 1].0, e[n - 1].1) is Ok);
        }
        lemma_tasks_of(e, n - 1, 0);
        lemma_tasks_ordered(e, n - 1);
        if let Ok(front) = tasks_of(e, n - 1) {
            if let Ok(t) = task_of(e[n - 1].0, e[n - 1].1) {
                let tasks = put_task(front, t);
                lemma_key_kept(e[n - 1].0, e[n - 1].1);
                assert forall|j: int| 0 <= j < front.len() implies (#[trigger] front[j]).key
                    != t.key by {
                    lemma_tasks_of(e, n - 1, j);
                    let k = choose|k: int|
                        0 <= k < n - 1 && task_of((#[trigger] e[k]).0, e[k].1) == Ok::<
                            TaskView,
                            ErrorView,
                        >(front[j]);
                    lemma_key_kept(e[k].0, e[k].1);
                    assert(e[k].0 != e[n - 1].0);
                }
                lemma_put_holds(front, t, t);
                assert forall|k: int| 0 <= k < n implies tasks.contains(
                    task_of((#[trigger] e[k]).0, e[k].1)->Ok_0,
                ) by {
                    if k < n - 1 {
                        let u = task_of(e[k].0, e[k].1)->Ok_0;
                        assert(front.contains(u));
                        let j = choose|j: int| 0 <= j < front.len() && front[j] == u;
                        assert(front[j].key != t.key);
                        lemma_put_holds(front, t, u);
                    }
                }
                if 0 <= i < tasks.len() {
                    let u = tasks[i];
                    assert(tasks.contains(u));
                    lemma_put_holds(front, t, u);
                    if u == t {
                        assert(task_of(e[n - 1].0, e[n - 1].1) == Ok::<TaskView, ErrorView>(u));
                    } else {
                        let j = choose|j: int| 0 <= j < front.len() && front[j] == u;
                        lemma_tasks_of(e, n - 1, j);
                        let k = choose|k: int|
                            0 <= k < n - 1 && task_of((#[trigger] e[k]).0, e[k].1) == Ok::<
                                TaskView,
                                ErrorView,
                            >(front[j]);
                        assert(task_of(e[k].0, e[k].1) == Ok::<TaskView, ErrorView>(tasks[i]));
                    }
                }
            }
        }
    }
}

proof fn lemma_key_kept(key: Seq<char>, v: TomlView)
    ensures
        task_of(key, v) matches Ok(t) ==> t.key == key,
{
    if let Some(e) = toml::fields(v) {
        lemma_key_kept_by(key, e, e.len() as int);
    }
}

proof fn lemma_key_kept_by(key: Seq<char>, e: toml::Entries, n: int)
    ensures
        task_fields(key, e, n) matches Ok(t) ==> t.key == key,
    decreases n,
{
    if n > 0 {
        lemma_key_kept_by(key, e, n - 1);
    }
}

/// Every table under `[tasks]` is a task of the config and there is no other task;
/// one that is refused has the whole config refused.
pub proof fn law_every_table_is_a_task(e: toml::Entries, i: int)
    requires
        toml::distinct(e),
    ensures
        tasks_of(e, e.len() as int) is Ok <==> forall|k: int|
            0 <= k < e.len() ==> task_of((#[trigger] e[k]).0, e[k].1) is Ok,
        tasks_of(e, e.len() as int) matches Ok(tasks) ==> {
            &&& tasks.len() == e.len()
            &&& forall|k: int|
                0 <= k < e.len() ==> tasks.contains(task_of((#[trigger] e[k]).0, e[k].1)->Ok_0)
            &&& 0 <= i < tasks.len() ==> exists|k: int|
                0 <= k < e.len() && task_of((#[trigger] e[k]).0, e[k].1) == Ok::<
                    TaskView,
                    ErrorView,
                >(tasks[i])
        },
{
    lemma_tasks_of(e, e.len() as int, i);
}

/// Whether a list is the array of strings at a key of a table; it is empty where there
/// is no such key.
pub open spec fn is_list_at(table: Option<TomlView>, key: Seq<char>, items: Seq<Seq<char>>) -> bool {
    match table {
        Some(TomlView::Table(e)) => match toml::lookup(e, key) {
            Some(v) => lists(v, items),
            None => items.len() == 0,
        },
        Some(TomlView::Inline(e)) => match toml::lookup(e, key) {
            Some(v) => lists(v, items),
            None => items.len() == 0,
        },
        _ => items.len() == 0,
    }
}

/// A config holds what the file says: the members of the workspace, the variables of
/// `[env]` in their order, the paths that `[security]` allows and the tasks.
pub proof fn law_configs_hold_what_is_written(e: toml::Entries, root: Seq<char>)
    ensures
        config_of(e, root) matches Ok(c) ==> {
            &&& c.root == root
            &&& !c.implicit
            &&& is_list_at(toml::lookup(e, "workspace"@), "members"@, c.members)
            &&& is_list_at(toml::lookup(e, "security"@), "allow_paths"@, c.allow_paths)
            &&& match toml::lookup(e, "env"@) {
                Some(v) => tables(v, c.env),
                None => c.env.len() == 0,
            }
            &&& match toml::lookup(e, "tasks"@) {
                Some(TomlView::Table(t)) => tasks_of(t, t.len() as int) == Ok::<
                    Seq<TaskView>,
                    ErrorView,
                >(c.tasks),
                Some(TomlView::Inline(t)) => tasks_of(t, t.len() as int) == Ok::<
                    Seq<TaskView>,
                    ErrorView,
                >(c.tasks),
                _ => c.tasks.len() == 0,
            }
        },
{
    lemma_strings_at(e, "workspace"@, "members"@);
    lemma_strings_at(e, "security"@, "allow_paths"@);
    if let Some(v) = toml::lookup(e, "env"@) {
        lemma_env_table(v, "env"@);
    }
}

proof fn lemma_strings_at(e: toml::Entries, table: Seq<char>, key: Seq<char>)
    ensures
        strings_at(e, table, key) matches Ok(items) ==> is_list_at(
            toml::lookup(e, table),
            key,
            items,
        ),
{
    if let Some(inner) = toml::table_at(e, table) {
        if let Some(v) = toml::lookup(inner, key) {
            lemma_string_array(v, table + "."@ + key);
        }
    }
}

/// A config is refused only for a reason: members or allowed paths that are no array of
/// strings, variables that are no table of strings, or a task that is refused.
pub proof fn law_configs_are_refused_for_a_reason(
    e: toml::Entries,
    root: Seq<char>,
    workspace: toml::Entries,
    security: toml::Entries,
    tasks: toml::Entries,
)
    requires
        toml::lookup(e, "workspace"@) == Some(TomlView::Table(workspace)),
        toml::lookup(e, "security"@) == Some(TomlView::Table(security)),
        toml::lookup(e, "tasks"@) == Some(TomlView::Table(tasks)),
        toml::distinct(tasks),
    ensures
        config_of(e, root) is Ok <==> {
            &&& toml::lookup(workspace, "members"@) is Some ==> is_string_array(
                toml::lookup(workspace, "members"@)->0,
            )
            &&& toml::lookup(security, "allow_paths"@) is Some ==> is_string_array(
                toml::lookup(security, "allow_paths"@)->0,
            )
            &&& toml::lookup(e, "env"@) is Some ==> is_string_table(toml::lookup(e, "env"@)->0)
            &&& forall|k: int|
                0 <= k < tasks.len() ==> task_of((#[trigger] tasks[k]).0, tasks[k].1) is Ok
        },
{
    lemma_tasks_of(tasks, tasks.len() as int, 0);
    if let Some(v) = toml::lookup(workspace, "members"@) {
        lemma_string_array(v, "workspace"@ + "."@ + "members"@);
    }
    if let Some(v) = toml::lookup(security, "allow_paths"@) {
        lemma_string_array(v, "security"@ + "."@ + "allow_paths"@);
    }
    if let Some(v) = toml::lookup(e, "env"@) {
        lemma_env_table(v, "env"@);
    }
}

/// Whether a character may stand in a task's name.
pub open spec fn is_legal(c: char) -> bool {
    ('a' <= c && c <= 'z') || ('A' <= c && c <= 'Z') || ('0' <= c && c <= '9') || c == '_' || c
        == '-' || c == ':'
}

/// Whether a name, or the name of a package, is legal.
pub open spec fn is_legal_name(s: Seq<char>) -> bool {
    s.len() > 0 && forall|i: int| 0 <= i < s.len() ==> is_legal(#[trigger] s[i])
}

proof fn lemma_illegal(s: Seq<char>, from: int)
    requires
        0 <= from <= s.len(),
    ensures
        illegal_from(s, from) is None <==> forall|i: int|
            from <= i < s.len() ==> is_legal(#[trigger] s[i]),
        forall|i: int|
            from <= i < s.len() && !is_legal(#[trigger] s[i]) && (forall|j: int|
                from <= j < i ==> is_legal(#[trigger] s[j])) ==> illegal_from(s, from) == Some(
                s[i],
            ),
    decreases s.len() - from,
{
    if from < s.len() {
        text::law_character_classes(s[from]);
        assert(is_name_char(s[from]) == is_legal(s[from]));
        lemma_illegal(s, from + 1);
        assert forall|i: int|
            from <= i < s.len() && !is_legal(#[trigger] s[i]) && (forall|j: int|
                from <= j < i ==> is_legal(#[trigger] s[j])) implies illegal_from(s, from) == Some(
            s[i],
        ) by {
            if i > from {
                assert(is_legal(s[from]));
            }
        }
    }
}

proof fn lemma_segment(key: Seq<char>, s: Seq<char>)
    ensures
        segment_error(key, s) is None <==> is_legal_name(s),
{
    lemma_illegal(s, 0);
}

/// A task's name is one or more letters, digits, `_`, `-` and `:`; no other key without
/// `#` is legal. An error names the key, and the first character that is not legal.
pub proof fn law_task_names(key: Seq<char>, i: int)
    requires
        !key.contains('#'),
    ensures
        key_error(key) is None <==> is_legal_name(key),
        key.len() == 0 ==> key_error(key) == Some(
            ErrorView::Config("task '"@ + key + "': "@ + "empty name segment"@),
        ),
        0 <= i < key.len() && !is_legal(key[i]) && (forall|j: int|
            0 <= j < i ==> is_legal(#[trigger] key[j])) ==> key_error(key) == Some(
            ErrorView::Config(
                "task '"@ + key + "': "@ + ("illegal character '"@ + seq![key[i]]
                    + "' — task names allow only [A-Za-z0-9_:-]"@),
            ),
        ),
        task_part(key) == key,
{
    let pieces = seq![key];
    text::law_splitting(key, pieces, '#');
    assert(text::joined(pieces, seq!['#']) =~= key) by {
        reveal_with_fuel(text::joined, 2);
    }
    lemma_segment(key, key);
    lemma_illegal(key, 0);
}

/// A key `package#task` is legal exactly if both parts are legal names; its task is
/// what stands behind the `#`.
pub proof fn law_package_keys(package: Seq<char>, task: Seq<char>)
    requires
        !package.contains('#'),
        !task.contains('#'),
    ensures
        key_error(package + seq!['#'] + task) is None <==> is_legal_name(package) && is_legal_name(
            task,
        ),
        task_part(package + seq!['#'] + task) == task,
{
    let key = package + seq!['#'] + task;
    let pieces = seq![package, task];
    text::law_splitting(key, pieces, '#');
    assert(text::joined(pieces, seq!['#']) =~= key) by {
        reveal_with_fuel(text::joined, 3);
        assert(pieces.drop_last() =~= seq![package]);
    }
    lemma_segment(key, package);
    lemma_segment(key, task);
}

/// A key with more than one `#` is refused.
pub proof fn law_one_separator(a: Seq<char>, b: Seq<char>, c: Seq<char>)
    ensures
        key_error(a + seq!['#'] + b + seq!['#'] + c) is Some,
{
    let key = a + seq!['#'] + b + seq!['#'] + c;
    let parts = text::split(key, '#');
    text::law_splitting(key, seq![], '#');
    assert(key[a.len() as int] == '#');
    assert(key[a.len() as int + 1 + b.len()] == '#');
    if parts.len() == 1 {
        reveal_with_fuel(text::joined, 2);
        assert(text::joined(parts, seq!['#']) =~= parts[0]);
        assert(parts[0].contains('#'));
    } else if parts.len() == 2 {
        reveal_with_fuel(text::joined, 3);
        assert(parts.drop_last() =~= seq![parts[0]]);
        assert(key =~= parts[0] + seq!['#'] + parts[1]);
        let p = parts[0].len() as int;
        if a.len() < p {
            assert(parts[0][a.len() as int] == '#');
            assert(parts[0].contains('#'));
        } else if a.len() == p {
            assert(parts[1][b.len() as int] == '#');
            assert(parts[1].contains('#'));
        } else {
            assert(parts[1][a.len() - p - 1] == '#');
            assert(parts[1].contains('#'));
        }
    }
}

/// A dependency with `^` in front is one on the packages upstream: it names the task
/// behind the `^` and is legal only where the task fans out. Any other names a task
/// by its key.
pub proof fn law_dependencies(owner: Seq<char>, fans_out: bool, dep: Seq<char>)
    ensures
        upstream(seq!['^'] + dep) == Some(dep),
        dep.len() == 0 || dep[0] != '^' ==> upstream(dep) is None,
        dep_error(owner, fans_out, seq!['^'] + dep) is None <==> fans_out && key_error(dep) is None,
        dep.len() == 0 || dep[0] != '^' ==> (dep_error(owner, fans_out, dep) is None <==> key_error(
            dep,
        ) is None),
        !fans_out ==> dep_error(owner, fans_out, seq!['^'] + dep) == Some(
            ErrorView::Config(
                "task '"@ + owner + "': "@ + ("upstream dep '"@ + (seq!['^'] + dep)
                    + "' (the v1.1 '^' marker) requires 'packages'"@),
            ),
        ),
        (dep.len() == 0 || dep[0] != '^') && key_error(dep) is Some ==> dep_error(
            owner,
            fans_out,
            dep,
        ) == Some(
            ErrorView::Config(
                "task '"@ + owner + "': "@ + ("invalid dependency '"@ + dep + "'"@),
            ),
        ),
{
    assert((seq!['^'] + dep).skip(1) =~= dep);
}

proof fn lemma_deps_error(t: TaskView, from: int)
    requires
        0 <= from <= t.deps.len(),
    ensures
        deps_error(t, from) is None <==> forall|i: int|
            from <= i < t.deps.len() ==> dep_error(t.key, t.packages is Some, #[trigger] t.deps[i])
                is None,
        deps_error(t, from) matches Some(e) ==> exists|i: int|
            from <= i < t.deps.len() && dep_error(t.key, t.packages is Some, #[trigger] t.deps[i])
                == Some(e) && forall|j: int|
                from <= j < i ==> dep_error(t.key, t.packages is Some, #[trigger] t.deps[j])
                    is None,
    decreases t.deps.len() - from,
{
    if from < t.deps.len() {
        lemma_deps_error(t, from + 1);
        if dep_error(t.key, t.packages is Some, t.deps[from]) is None {
            if let Some(e) = deps_error(t, from + 1) {
                let i = choose|i: int|
                    from + 1 <= i < t.deps.len() && dep_error(
                        t.key,
                        t.packages is Some,
                        #[trigger] t.deps[i],
                    ) == Some(e) && forall|j: int|
                        from + 1 <= j < i ==> dep_error(
                            t.key,
                            t.packages is Some,
                            #[trigger] t.deps[j],
                        ) is None;
                assert(dep_error(t.key, t.packages is Some, t.deps[i]) == Some(e));
            }
        }
    }
}

/// A task is valid exactly if its key is legal, it has not both `dir` and `packages`,
/// each of its dependencies is legal and its `run` string can be read.
pub proof fn law_valid_tasks(t: TaskView)
    ensures
        task_invalid(t) is None <==> {
            &&& key_error(t.key) is None
            &&& t.dir is None || t.packages is None
            &&& forall|i: int|
                0 <= i < t.deps.len() ==> dep_error(
                    t.key,
                    t.packages is Some,
                    #[trigger] t.deps[i],
                ) is None
            &&& t.run is None || shell::plan(t.run->0) is Ok
        },
        key_error(t.key) is None && t.dir is Some && t.packages is Some ==> task_invalid(t) == Some(
            ErrorView::Config(
                "task '"@ + t.key + "': "@ + "'dir' and 'packages' are mutually exclusive"@,
            ),
        ),
{
    lemma_deps_error(t, 0);
}

proof fn lemma_tasks_invalid(tasks: Seq<TaskView>, from: int, i: int)
    requires
        0 <= from <= tasks.len(),
    ensures
        tasks_invalid(tasks, from) is None <==> forall|k: int|
            from <= k < tasks.len() ==> task_invalid(#[trigger] tasks[k]) is None,
        from <= i < tasks.len() && task_invalid(tasks[i]) is Some && (forall|k: int|
            from <= k < i ==> task_invalid(#[trigger] tasks[k]) is None) ==> tasks_invalid(
            tasks,
            from,
        ) == task_invalid(tasks[i]),
    decreases tasks.len() - from,
{
    if from < tasks.len() {
        lemma_tasks_invalid(tasks, from + 1, i);
        if from < i < tasks.len() && (forall|k: int|
            from <= k < i ==> task_invalid(#[trigger] tasks[k]) is None) {
            assert(task_invalid(tasks[from]) is None);
        }
    }
}

/// A config is accepted exactly if the file can be read and each of its tasks is valid;
/// the first task that is not is the one that is reported.
pub proof fn law_valid_configs(
    read: Result<toml::Entries, Seq<char>>,
    root: Seq<char>,
    c: ConfigView,
    i: int,
)
    ensures
        valid_config(read, root) == Ok::<ConfigView, ErrorView>(c) <==> read is Ok && config_of(
            read->Ok_0,
            root,
        ) == Ok::<ConfigView, ErrorView>(c) && forall|k: int|
            0 <= k < c.tasks.len() ==> task_invalid(#[trigger] c.tasks[k]) is None,
        read is Ok && config_of(read->Ok_0, root) == Ok::<ConfigView, ErrorView>(c) && 0 <= i
            < c.tasks.len() && task_invalid(c.tasks[i]) is Some && (forall|k: int|
            0 <= k < i ==> task_invalid(#[trigger] c.tasks[k]) is None) ==> valid_config(read, root)
            == Err::<ConfigView, ErrorView>(task_invalid(c.tasks[i])->0),
        read matches Err(m) ==> valid_config(read, root) == Err::<ConfigView, ErrorView>(
            ErrorView::Config("invalid TOML in 'tasks.toml': "@ + m),
        ),
{
    if let Ok(e) = read {
        if let Ok(d) = config_of(e, root) {
            lemma_tasks_invalid(d.tasks, 0, i);
        }
    }
}

/// A key finds the first task that has it, and none where no task has it.
pub proof fn law_tasks_are_found(tasks: Seq<TaskView>, key: Seq<char>, i: int)
    ensures
        0 <= i < tasks.len() && tasks[i].key == key && (forall|j: int|
            0 <= j < i ==> (#[trigger] tasks[j]).key != key) ==> find_task(tasks, key) == Some(
            tasks[i],
        ),
        find_task(tasks, key) is None <==> forall|j: int|
            0 <= j < tasks.len() ==> (#[trigger] tasks[j]).key != key,
{
    lemma_position(tasks, key);
    let p = position(tasks, key);
    if 0 <= i < tasks.len() && tasks[i].key == key && (forall|j: int|
        0 <= j < i ==> (#[trigger] tasks[j]).key != key) {
        if p < i {
            assert(tasks[p].key != key);
        }
    }
    if p < tasks.len() {
        assert(tasks[p].key == key);
    }
}

/// The config of a directory is found wherever no boundary lies below it: it governs if
/// no nearer directory has a config or is a repository's root, and none up to it is the
/// home directory or on another file system. The directory that the walk starts in is
/// looked at in any case.
pub proof fn law_discovery_finds_the_config(facts: Seq<DirFacts>, i: int)
    requires
        0 <= i < facts.len(),
        facts[i].has_config,
        forall|j: int| 0 <= j < i ==> !(#[trigger] facts[j]).has_config && !facts[j].is_repository,
        forall|j: int| 0 < j <= i ==> !(#[trigger] facts[j]).is_home && !facts[j].other_filesystem,
    ensures
        governing(facts, 0) == Some(i),
{
    lemma_governs(facts, 0, i);
}

proof fn lemma_governs(facts: Seq<DirFacts>, from: int, i: int)
    requires
        0 <= from <= i < facts.len(),
        facts[i].has_config,
        forall|j: int|
            from <= j < i ==> !(#[trigger] facts[j]).has_config && !facts[j].is_repository,
        forall|j: int|
            0 < j && from <= j <= i ==> !(#[trigger] facts[j]).is_home
                && !facts[j].other_filesystem,
    ensures
        governing(facts, from) == Some(i),
    decreases i - from,
{
    if from < i {
        lemma_governs(facts, from + 1, i);
    }
}

/// The marker that counts is the nearest one.
pub proof fn law_the_nearest_marker_counts(facts: Seq<DirFacts>, i: int)
    ensures
        0 <= i < facts.len() && facts[i].has_marker && (forall|j: int|
            0 <= j < i ==> !(#[trigger] facts[j]).has_marker) ==> nearest_marker(facts, 0) == Some(
            i,
        ),
        (forall|j: int| 0 <= j < facts.len() ==> !(#[trigger] facts[j]).has_marker)
            ==> nearest_marker(facts, 0) is None,
{
    lemma_nearest(facts, 0, i);
}

proof fn lemma_nearest(facts: Seq<DirFacts>, from: int, i: int)
    requires
        0 <= from <= facts.len(),
    ensures
        from <= i < facts.len() && facts[i].has_marker && (forall|j: int|
            from <= j < i ==> !(#[trigger] facts[j]).has_marker) ==> nearest_marker(facts, from)
            == Some(i),
        (forall|j: int| from <= j < facts.len() ==> !(#[trigger] facts[j]).has_marker)
            ==> nearest_marker(facts, from) is None,
    decreases facts.len() - from,
{
    if from < facts.len() {
        lemma_nearest(facts, from + 1, i);
        if from < i < facts.len() && (forall|j: int|
            from <= j < i ==> !(#[trigger] facts[j]).has_marker) {
            assert(!facts[from].has_marker);
        }
        if forall|j: int| from <= j < facts.len() ==> !(#[trigger] facts[j]).has_marker {
            assert(!facts[from].has_marker);
        }
    }
}

/// The walk up starts in the directory and leaves one name off at each step, until none
/// is left.
pub proof fn law_the_walk_goes_up(absolute: bool, parts: Seq<Seq<char>>, i: int)
    requires
        path::are_components(absolute, parts),
        absolute || parts.len() > 0,
        0 <= i <= parts.len(),
    ensures
        ({
            let dir = if absolute {
                seq!['/'] + text::joined(parts, seq!['/'])
            } else {
                text::joined(parts, seq!['/'])
            };
            &&& upward(dir).len() == parts.len() + 1
            &&& upward(dir)[i] == if absolute {
                seq!['/'] + text::joined(parts.take(parts.len() - i), seq!['/'])
            } else {
                text::joined(parts.take(parts.len() - i), seq!['/'])
            }
            &&& upward(dir)[0] == dir
        }),
{
    path::law_rendering_keeps_components(absolute, parts);
    assert(parts.take(parts.len() as int) =~= parts);
}

/// A file is exposed exactly if others may write it, or may write its directory and the
/// sticky bit does not keep them from replacing what is not theirs.
pub proof fn law_exposed_files(file_mode: u32, dir_mode: u32)
    ensures
        exposed(file_mode, dir_mode) <==> (file_mode & 2 != 0) || (dir_mode & 2 != 0 && dir_mode
            & 512 == 0),
{
    assert((file_mode / 2) % 2 == 1 <==> file_mode & 2 != 0) by (bit_vector);
    assert((dir_mode / 2) % 2 == 1 <==> dir_mode & 2 != 0) by (bit_vector);
    assert((dir_mode / 512) % 2 == 1 <==> dir_mode & 512 != 0) by (bit_vector);
}

/// Without a config there is one task, the one that is asked for, and nothing is said of
/// it.
pub proof fn law_implicit_configs(root: Seq<char>, task: Seq<char>, name: Seq<char>)
    ensures
        ({
            let c = implicit_view(root, task);
            &&& c.implicit
            &&& c.root == root
            &&& c.members.len() == 0 && c.env.len() == 0 && c.allow_paths.len() == 0
            &&& c.tasks.len() == 1
            &&& c.tasks[0].key == task
            &&& says(c.tasks[0], name, None)
        }),
{
}

} // verus!
