//! The command line, and what `--list` and `--init` say.
//!
//! `tsr <task> [-- <args>...]` runs a task and forwards everything behind `--`.
//! Every builtin is a flag, never a bare word, so the first bare word is always
//! a task name.

use vstd::prelude::*;

use crate::config;
use crate::config::{Config, ConfigView, Delegate, DelegateView, Task, TaskView};
use crate::detect;
use crate::detect::{Ecosystem, Markers};
use crate::error::{ErrorView, TsrError};
use crate::path;
use crate::text;

verus! {

/// The help text.
pub const USAGE: &'static str = "tsr — a lightweight, polyglot, repo-aware task runner

USAGE:
    tsr <task> [-- <args>...]   run a task; args after -- are forwarded
    tsr <task> --since <ref>    run only in packages affected since a git ref
    tsr --list                  list the tasks defined in tasks.toml
    tsr --config                edit tasks.toml in an interactive TUI
    tsr --init                  create a starter tasks.toml here
    tsr --help | --version

OPTIONS (after a task name):
    --since <ref>               only packages affected since a git ref
    --resume-from <pkg>         skip every package ordered before <pkg>
    --no-bail                   run every batch to completion
    --dry-run                   print the plan and run nothing
    --allow-unsafe-env          let the config set guarded variables
    --reporter <fmt>            human (default) or ndjson
    --reporter-file <path>      also write the NDJSON stream to a file

The first argument is always a task name — every builtin is a flag, so a task
named `list` or `init` is never shadowed.

tasks.toml is optional: with no config, `tsr <task>` runs the package's native
script (e.g. `tsr dev` → `npm run dev` / `cargo dev`) by auto-detecting the
ecosystem in the current directory or a parent.

EXAMPLES:
    tsr dev
    tsr test -- --watch
    tsr ci
    tsr build --since main";

/// What `tsr --init` writes: reference comments only, no live tasks. A task here
/// would shadow what the repository already runs.
pub const INIT_TEMPLATE: &'static str = "# tasks.toml — the workspace root anchor and config for `tsr`.
# Docs: https://tsr.opentechf.org/docs

# [workspace]
# members = [\"apps/*\", \"packages/*\"]

# [env]
# NODE_ENV = \"development\"

# [tasks.dev]
# run = \"vite\"

# [tasks.build]
# delegate = \"turbo\"

# [tasks.test]

# [tasks.ci]
# deps = [\"lint\", \"test\", \"build\"]
# parallel = true
";

/// What the terminal is given.
#[derive(Debug, Clone, Copy, PartialEq, Eq, Structural)]
pub enum Reporter {
    /// Nothing on success, a table of results on failure.
    Human,
    /// One JSON object per line.
    Ndjson,
}

/// The options of a run.
#[derive(Debug, PartialEq, Eq)]
pub struct RunOptions {
    /// `--since <ref>`: run only in the packages affected since this git ref.
    pub since: Option<String>,
    /// `--resume-from <pkg>`: skip every package ordered before this one.
    pub resume_from: Option<String>,
    /// `--no-bail`: run every batch to completion.
    pub no_bail: bool,
    /// `--dry-run`: print the plan and run nothing.
    pub dry_run: bool,
    /// `--allow-unsafe-env`: let the config set the guarded variables.
    pub allow_unsafe_env: bool,
    /// `--reporter <fmt>`: what the terminal is given.
    pub reporter: Reporter,
    /// `--reporter-file <path>`: where the JSON lines go as well.
    pub reporter_file: Option<String>,
}

/// A parsed command line.
#[derive(Debug, PartialEq, Eq)]
pub enum Cli {
    Run { task: String, passthrough: Vec<String>, opts: RunOptions },
    List,
    Init,
    Config,
    Help,
    Version,
}

// ---------------------------------------------------------------------------
// The model
// ---------------------------------------------------------------------------
/// The options of a run.
pub struct OptionsView {
    pub since: Option<Seq<char>>,
    pub resume_from: Option<Seq<char>>,
    pub no_bail: bool,
    pub dry_run: bool,
    pub allow_unsafe_env: bool,
    pub reporter: Reporter,
    pub reporter_file: Option<Seq<char>>,
}

/// A command line.
pub enum CliView {
    Run { task: Seq<char>, passthrough: Seq<Seq<char>>, opts: OptionsView },
    List,
    Init,
    Config,
    Help,
    Version,
}

impl View for RunOptions {
    type V = OptionsView;

    open spec fn view(&self) -> OptionsView {
        OptionsView {
            since: config::opt_text(self.since),
            resume_from: config::opt_text(self.resume_from),
            no_bail: self.no_bail,
            dry_run: self.dry_run,
            allow_unsafe_env: self.allow_unsafe_env,
            reporter: self.reporter,
            reporter_file: config::opt_text(self.reporter_file),
        }
    }
}

impl View for Cli {
    type V = CliView;

    open spec fn view(&self) -> CliView {
        match self {
            Cli::Run { task, passthrough, opts } => CliView::Run {
                task: task@,
                passthrough: text::texts(passthrough@),
                opts: opts@,
            },
            Cli::List => CliView::List,
            Cli::Init => CliView::Init,
            Cli::Config => CliView::Config,
            Cli::Help => CliView::Help,
            Cli::Version => CliView::Version,
        }
    }
}

/// The options of a plain `tsr <task>`.
pub open spec fn no_options() -> OptionsView {
    OptionsView {
        since: None,
        resume_from: None,
        no_bail: false,
        dry_run: false,
        allow_unsafe_env: false,
        reporter: Reporter::Human,
        reporter_file: None,
    }
}

impl Default for RunOptions {
    fn default() -> (o: RunOptions)
        ensures
            o@ == no_options(),
    {
        RunOptions {
            since: None,
            resume_from: None,
            no_bail: false,
            dry_run: false,
            allow_unsafe_env: false,
            reporter: Reporter::Human,
            reporter_file: None,
        }
    }
}

/// The position of the first `--` from `from` on; the number of arguments if
/// there is none.
pub open spec fn dashes(args: Seq<Seq<char>>, from: int) -> int
    decreases args.len() - from,
{
    if from >= args.len() {
        args.len() as int
    } else if args[from] == "--"@ {
        from
    } else {
        dashes(args, from + 1)
    }
}

/// What an argument is to a flag that takes a value.
pub enum TakenView {
    /// Another argument.
    Other,
    /// The flag, without a value.
    Missing,
    /// The flag, its value, and where the next argument stands.
    Value(Seq<char>, int),
}

/// Whether the argument at `i` is `<flag>=<value>`, or `<flag>` with the value
/// as the next argument, whatever that looks like. An empty value is none.
pub open spec fn taken(rest: Seq<Seq<char>>, i: int, flag: Seq<char>) -> TakenView {
    match text::after_prefix(rest[i], flag + "="@) {
        Some(v) => if v.len() == 0 {
            TakenView::Missing
        } else {
            TakenView::Value(v, i + 1)
        },
        None => if rest[i] != flag {
            TakenView::Other
        } else if i + 1 >= rest.len() || rest[i + 1].len() == 0 {
            TakenView::Missing
        } else {
            TakenView::Value(rest[i + 1], i + 2)
        },
    }
}

/// The reporter of a name.
pub open spec fn reporter_named(name: Seq<char>) -> Option<Reporter> {
    if name == "human"@ {
        Some(Reporter::Human)
    } else if name == "ndjson"@ {
        Some(Reporter::Ndjson)
    } else {
        None
    }
}

/// The error for a reporter that there is none of.
pub open spec fn unknown_reporter(name: Seq<char>) -> ErrorView {
    ErrorView::Runtime("unknown reporter '"@ + name + "' — use 'human' or 'ndjson'"@)
}

/// The error for an argument that is no option.
pub open spec fn unexpected(task: Seq<char>, arg: Seq<char>) -> ErrorView {
    ErrorView::Runtime(
        "unexpected argument '"@ + arg + "' — forward args after '--' (e.g. `tsr "@ + task
            + " -- "@ + arg + "`)"@,
    )
}

/// The message for `--since` without a value.
pub const NEEDS_REF: &'static str = "'--since' needs a git ref (e.g. `--since main`)";

/// The message for `--resume-from` without a value.
pub const NEEDS_PACKAGE: &'static str =
    "'--resume-from' needs a package (e.g. `--resume-from packages/ui`)";

/// The message for `--reporter` without a value.
pub const NEEDS_FORMAT: &'static str = "'--reporter' needs a format: 'human' or 'ndjson'";

/// The message for `--reporter-file` without a value.
pub const NEEDS_PATH: &'static str =
    "'--reporter-file' needs a path (e.g. `--reporter-file results.ndjson`)";

/// What one option makes of the options read so far, and where the next
/// argument stands.
pub open spec fn option_step(
    task: Seq<char>,
    rest: Seq<Seq<char>>,
    i: int,
    opts: OptionsView,
) -> Result<(OptionsView, int), ErrorView> {
    match taken(rest, i, "--since"@) {
        TakenView::Value(v, next) => Ok((OptionsView { since: Some(v), ..opts }, next)),
        TakenView::Missing => Err(ErrorView::Runtime(NEEDS_REF@)),
        TakenView::Other => match taken(rest, i, "--resume-from"@) {
            TakenView::Value(v, next) => Ok((OptionsView { resume_from: Some(v), ..opts }, next)),
            TakenView::Missing => Err(ErrorView::Runtime(NEEDS_PACKAGE@)),
            TakenView::Other => match taken(rest, i, "--reporter"@) {
                TakenView::Value(v, next) => match reporter_named(v) {
                    Some(r) => Ok((OptionsView { reporter: r, ..opts }, next)),
                    None => Err(unknown_reporter(v)),
                },
                TakenView::Missing => Err(ErrorView::Runtime(NEEDS_FORMAT@)),
                TakenView::Other => match taken(rest, i, "--reporter-file"@) {
                    TakenView::Value(v, next) => Ok(
                        (OptionsView { reporter_file: Some(v), ..opts }, next),
                    ),
                    TakenView::Missing => Err(ErrorView::Runtime(NEEDS_PATH@)),
                    TakenView::Other => if rest[i] == "--no-bail"@ {
                        Ok((OptionsView { no_bail: true, ..opts }, i + 1))
                    } else if rest[i] == "--dry-run"@ {
                        Ok((OptionsView { dry_run: true, ..opts }, i + 1))
                    } else if rest[i] == "--allow-unsafe-env"@ {
                        Ok((OptionsView { allow_unsafe_env: true, ..opts }, i + 1))
                    } else {
                        Err(unexpected(task, rest[i]))
                    },
                },
            },
        },
    }
}

/// The options that the arguments from `i` on add to those read so far; of an
/// option that is given twice the last one counts.
pub open spec fn options(task: Seq<char>, rest: Seq<Seq<char>>, i: int, opts: OptionsView) -> Result<
    OptionsView,
    ErrorView,
>
    decreases rest.len() - i,
{
    if i >= rest.len() {
        Ok(opts)
    } else {
        match option_step(task, rest, i, opts) {
            Err(e) => Err(e),
            Ok((next_opts, next)) => if next > i {
                options(task, rest, next, next_opts)
            } else {
                Ok(next_opts)
            },
        }
    }
}

/// A builtin that takes no arguments.
pub open spec fn alone(head: Seq<Seq<char>>, what: CliView) -> Result<CliView, ErrorView> {
    if head.len() > 1 {
        Err(ErrorView::Runtime("'"@ + head[0] + "' takes no arguments"@))
    } else {
        Ok(what)
    }
}

/// Whether a word is a flag.
pub open spec fn is_flag(word: Seq<char>) -> bool {
    word.len() > 0 && word[0] == '-'
}

/// What a command line asks for, given what stands before its first `--` and
/// what stands behind it.
pub open spec fn asked(head: Seq<Seq<char>>, tail: Seq<Seq<char>>) -> Result<CliView, ErrorView> {
    if head.len() == 0 {
        Err(ErrorView::Runtime("no task specified\n\n"@ + USAGE@))
    } else if head[0] == "--list"@ {
        alone(head, CliView::List)
    } else if head[0] == "--init"@ {
        alone(head, CliView::Init)
    } else if head[0] == "--config"@ {
        alone(head, CliView::Config)
    } else if head[0] == "-h"@ || head[0] == "--help"@ {
        Ok(CliView::Help)
    } else if head[0] == "-V"@ || head[0] == "--version"@ {
        Ok(CliView::Version)
    } else if is_flag(head[0]) {
        Err(ErrorView::Runtime("unknown flag '"@ + head[0] + "'\n\n"@ + USAGE@))
    } else {
        match options(head[0], head.skip(1), 0, no_options()) {
            Err(e) => Err(e),
            Ok(opts) => Ok(CliView::Run { task: head[0], passthrough: tail, opts }),
        }
    }
}

/// What a command line asks for.
pub open spec fn command_line(args: Seq<Seq<char>>) -> Result<CliView, ErrorView> {
    let n = dashes(args, 0);
    asked(
        args.take(n),
        if n < args.len() {
            args.skip(n + 1)
        } else {
            Seq::empty()
        },
    )
}

// ---------------------------------------------------------------------------
// Parsing
// ---------------------------------------------------------------------------
/// What an argument is to a flag that takes a value.
enum Taken {
    Other,
    Missing,
    Value(String, usize),
}

impl View for Taken {
    type V = TakenView;

    closed spec fn view(&self) -> TakenView {
        match self {
            Taken::Other => TakenView::Other,
            Taken::Missing => TakenView::Missing,
            Taken::Value(s, next) => TakenView::Value(s@, *next as int),
        }
    }
}

/// Read the argument at `i` as a flag with a value.
fn take(rest: &Vec<String>, i: usize, flag: &str) -> (r: Taken)
    requires
        i < rest.len(),
    ensures
        r@ == taken(text::texts(rest@), i as int, flag@),
        r matches Taken::Value(_, next) ==> i < next <= rest.len(),
{
    let ghost all = text::texts(rest@);
    assert(all[i as int] == rest[i as int]@);
    let with_value = text::join2(flag, "=");
    match text::strip_prefix(&text::chars(rest[i].as_str()), with_value.as_str()) {
        Some(v) => {
            if v.len() == 0 {
                Taken::Missing
            } else {
                Taken::Value(text::string(&v), i + 1)
            }
        },
        None => {
            if !text::same(rest[i].as_str(), flag) {
                return Taken::Other;
            }
            if rest.len() - i < 2 {
                return Taken::Missing;
            }
            assert(all[i + 1] == rest[i + 1]@);
            if text::chars(rest[i + 1].as_str()).len() == 0 {
                return Taken::Missing;
            }
            Taken::Value(rest[i + 1].clone(), i + 2)
        },
    }
}

/// Read the option at `i`; where the next argument stands.
fn parse_option(task: &str, rest: &Vec<String>, i: usize, opts: &mut RunOptions) -> (r: Result<
    usize,
    TsrError,
>)
    requires
        i < rest.len(),
    ensures
        match r {
            Ok(next) => i < next <= rest.len() && option_step(
                task@,
                text::texts(rest@),
                i as int,
                old(opts)@,
            ) == Ok::<(OptionsView, int), ErrorView>((final(opts)@, next as int)),
            Err(e) => option_step(task@, text::texts(rest@), i as int, old(opts)@) == Err::<
                (OptionsView, int),
                ErrorView,
            >(e@),
        },
{
    assert(text::texts(rest@)[i as int] == rest[i as int]@);
    match take(rest, i, "--since") {
        Taken::Value(v, next) => {
            opts.since = Some(v);
            return Ok(next);
        },
        Taken::Missing => return Err(TsrError::runtime(NEEDS_REF)),
        Taken::Other => {},
    }
    match take(rest, i, "--resume-from") {
        Taken::Value(v, next) => {
            opts.resume_from = Some(v);
            return Ok(next);
        },
        Taken::Missing => return Err(TsrError::runtime(NEEDS_PACKAGE)),
        Taken::Other => {},
    }
    match take(rest, i, "--reporter") {
        Taken::Value(v, next) => {
            if text::same(v.as_str(), "human") {
                opts.reporter = Reporter::Human;
                return Ok(next);
            }
            if text::same(v.as_str(), "ndjson") {
                opts.reporter = Reporter::Ndjson;
                return Ok(next);
            }
            let msg = text::join3(
                "unknown reporter '",
                v.as_str(),
                "' — use 'human' or 'ndjson'",
            );
            return Err(TsrError::runtime(msg.as_str()));
        },
        Taken::Missing => return Err(TsrError::runtime(NEEDS_FORMAT)),
        Taken::Other => {},
    }
    match take(rest, i, "--reporter-file") {
        Taken::Value(v, next) => {
            opts.reporter_file = Some(v);
            return Ok(next);
        },
        Taken::Missing => return Err(TsrError::runtime(NEEDS_PATH)),
        Taken::Other => {},
    }
    let arg = rest[i].as_str();
    if text::same(arg, "--no-bail") {
        opts.no_bail = true;
        return Ok(i + 1);
    }
    if text::same(arg, "--dry-run") {
        opts.dry_run = true;
        return Ok(i + 1);
    }
    if text::same(arg, "--allow-unsafe-env") {
        opts.allow_unsafe_env = true;
        return Ok(i + 1);
    }
    let mut msg = text::join3(
        "unexpected argument '",
        arg,
        "' — forward args after '--' (e.g. `tsr ",
    );
    msg.append(task);
    msg.append(" -- ");
    msg.append(arg);
    msg.append("`)");
    assert(msg@ == unexpected(task@, arg@)->Runtime_0);
    Err(TsrError::runtime(msg.as_str()))
}

/// Read the options that may follow a task name.
fn parse_options(task: &str, rest: &Vec<String>) -> (r: Result<RunOptions, TsrError>)
    ensures
        match r {
            Ok(o) => options(task@, text::texts(rest@), 0, no_options()) == Ok::<
                OptionsView,
                ErrorView,
            >(o@),
            Err(e) => options(task@, text::texts(rest@), 0, no_options()) == Err::<
                OptionsView,
                ErrorView,
            >(e@),
        },
{
    let ghost all = text::texts(rest@);
    let mut opts = RunOptions::default();
    let mut i: usize = 0;
    while i < rest.len()
        invariant
            i <= rest.len(),
            all == text::texts(rest@),
            options(task@, all, 0, no_options()) == options(task@, all, i as int, opts@),
        decreases rest.len() - i,
    {
        match parse_option(task, rest, i, &mut opts) {
            Ok(next) => {
                i = next;
            },
            Err(e) => return Err(e),
        }
    }
    Ok(opts)
}

/// Parse the process arguments, without the program's own name.
pub fn parse(args: &Vec<String>) -> (r: Result<Cli, TsrError>)
    ensures
        match r {
            Ok(c) => command_line(text::texts(args@)) == Ok::<CliView, ErrorView>(c@),
            Err(e) => command_line(text::texts(args@)) == Err::<CliView, ErrorView>(e@),
        },
{
    let ghost all = text::texts(args@);
    let mut head: Vec<String> = Vec::new();
    let mut n: usize = 0;
    while n < args.len() && !text::same(args[n].as_str(), "--")
        invariant
            n <= args.len(),
            all == text::texts(args@),
            text::texts(head@) == all.take(n as int),
            dashes(all, 0) == dashes(all, n as int),
        decreases args.len() - n,
    {
        assert(all[n as int] == args[n as int]@);
        let ghost so_far = text::texts(head@);
        head.push(args[n].clone());
        assert(text::texts(head@) =~= so_far.push(args[n as int]@));
        assert(all.take(n + 1) =~= all.take(n as int).push(all[n as int]));
        n += 1;
    }
    if n < args.len() {
        assert(all[n as int] == args[n as int]@);
    }
    assert(n == dashes(all, 0));
    let tail = if n < args.len() {
        path::skip(args, n + 1)
    } else {
        Vec::new()
    };
    let ghost behind = if n < args.len() {
        all.skip(n + 1)
    } else {
        Seq::empty()
    };
    assert(text::texts(tail@) =~= behind);
    let ghost before = all.take(n as int);
    if head.len() == 0 {
        return Err(TsrError::runtime(text::join2("no task specified\n\n", USAGE).as_str()));
    }
    assert(before[0] == head[0]@);
    let first = head[0].as_str();
    let builtin = if text::same(first, "--list") {
        Some(Cli::List)
    } else if text::same(first, "--init") {
        Some(Cli::Init)
    } else if text::same(first, "--config") {
        Some(Cli::Config)
    } else {
        None
    };
    if let Some(what) = builtin {
        if head.len() > 1 {
            let msg = text::join3("'", first, "' takes no arguments");
            return Err(TsrError::runtime(msg.as_str()));
        }
        return Ok(what);
    }
    if text::same(first, "-h") || text::same(first, "--help") {
        return Ok(Cli::Help);
    }
    if text::same(first, "-V") || text::same(first, "--version") {
        return Ok(Cli::Version);
    }
    let cs = text::chars(first);
    if cs.len() > 0 && cs[0] == '-' {
        let mut msg = text::join3("unknown flag '", first, "'\n\n");
        msg.append(USAGE);
        return Err(TsrError::runtime(msg.as_str()));
    }
    let rest = path::skip(&head, 1);
    assert(text::texts(rest@) =~= before.skip(1));
    match parse_options(first, &rest) {
        Ok(opts) => Ok(Cli::Run { task: first.to_string(), passthrough: tail, opts }),
        Err(e) => Err(e),
    }
}

// ---------------------------------------------------------------------------
// What is shown
// ---------------------------------------------------------------------------
/// A list with one more part, where there is one.
pub open spec fn with_part(parts: Seq<Seq<char>>, part: Option<Seq<char>>) -> Seq<Seq<char>> {
    match part {
        Some(p) => parts.push(p),
        None => parts,
    }
}

/// A label and what it is a label of, where there is something.
pub open spec fn labelled(label: Seq<char>, what: Option<Seq<char>>) -> Option<Seq<char>> {
    match what {
        Some(s) => Some(label + s),
        None => None,
    }
}

/// Names in a row, where there is a list of them.
pub open spec fn listed(names: Option<Seq<Seq<char>>>) -> Option<Seq<char>> {
    match names {
        Some(n) => Some(text::joined(n, ", "@)),
        None => None,
    }
}

/// What a task is delegated to.
pub open spec fn backend(d: Option<DelegateView>) -> Option<Seq<char>> {
    match d {
        Some(DelegateView::Bin(bin)) => Some(bin),
        Some(DelegateView::Full { bin, .. }) => Some(bin + " (custom)"@),
        None => None,
    }
}

/// The parts of a task's description.
pub open spec fn description_parts(t: TaskView) -> Seq<Seq<char>> {
    let parts = with_part(Seq::empty(), labelled("delegate: "@, backend(t.delegate)));
    let parts = with_part(parts, labelled("run: "@, t.run));
    let parts = with_part(parts, labelled("packages: "@, listed(t.packages)));
    let parts = with_part(parts, labelled("dir: "@, t.dir));
    let parts = if t.deps.len() > 0 {
        parts.push("deps: "@ + text::joined(t.deps, ", "@))
    } else {
        parts
    };
    if t.parallel {
        parts.push("parallel"@)
    } else {
        parts
    }
}

/// A task's form in one line. A task without any field is run by its package's
/// own runner.
pub open spec fn description(t: TaskView) -> Seq<char> {
    let parts = description_parts(t);
    if parts.len() == 0 {
        "auto"@
    } else {
        text::joined(parts, "  ·  "@)
    }
}

/// Add a part to a list.
fn put_part(parts: &mut Vec<String>, label: &str, what: &str)
    ensures
        text::texts(final(parts)@) == text::texts(old(parts)@).push(label@ + what@),
{
    let ghost so_far = text::texts(parts@);
    parts.push(text::join2(label, what));
    assert(text::texts(parts@) =~= so_far.push(label@ + what@));
}

/// A task's form in one line.
fn describe(task: &Task) -> (r: String)
    ensures
        r@ == description(task@),
{
    let mut parts: Vec<String> = Vec::new();
    assert(text::texts(parts@) =~= Seq::<Seq<char>>::empty());
    match &task.delegate {
        Some(d) => {
            match d {
                Delegate::Bin(bin) => put_part(&mut parts, "delegate: ", bin.as_str()),
                Delegate::Full { bin, .. } => {
                    let custom = text::join2(bin.as_str(), " (custom)");
                    put_part(&mut parts, "delegate: ", custom.as_str());
                },
            }
        },
        None => {},
    }
    if let Some(run) = &task.run {
        put_part(&mut parts, "run: ", run.as_str());
    }
    if let Some(packages) = &task.packages {
        put_part(&mut parts, "packages: ", text::join(packages, ", ").as_str());
    }
    if let Some(dir) = &task.dir {
        put_part(&mut parts, "dir: ", dir.as_str());
    }
    if task.deps.len() > 0 {
        put_part(&mut parts, "deps: ", text::join(&task.deps, ", ").as_str());
    }
    if task.parallel {
        let ghost so_far = text::texts(parts@);
        parts.push("parallel".to_string());
        assert(text::texts(parts@) =~= so_far.push("parallel"@));
    }
    assert(text::texts(parts@) == description_parts(task@));
    if parts.len() == 0 {
        "auto".to_string()
    } else {
        text::join(&parts, "  ·  ")
    }
}

/// The keys of the tasks.
pub open spec fn task_keys(tasks: Seq<TaskView>) -> Seq<Seq<char>> {
    Seq::new(tasks.len(), |i: int| tasks[i].key)
}

/// The lines that `--list` prints: each task's key, filled up to the widest
/// one, and its form.
pub open spec fn list_lines(cfg: ConfigView) -> Seq<Seq<char>> {
    if cfg.tasks.len() == 0 {
        seq!["No tasks defined in tasks.toml."@]
    } else {
        let width = text::widest(task_keys(cfg.tasks), cfg.tasks.len() as int);
        seq!["Available tasks:"@] + Seq::new(
            cfg.tasks.len(),
            |i: int|
                "  "@ + text::padded(cfg.tasks[i].key, width) + "  "@ + description(cfg.tasks[i]),
        )
    }
}

/// The lines that `--list` prints for a config.
pub fn list(cfg: &Config) -> (r: Vec<String>)
    ensures
        text::texts(r@) == list_lines(cfg@),
{
    let ghost tasks = cfg@.tasks;
    let mut out: Vec<String> = Vec::new();
    if cfg.tasks.len() == 0 {
        out.push("No tasks defined in tasks.toml.".to_string());
        assert(text::texts(out@) =~= list_lines(cfg@));
        return out;
    }
    let mut keys: Vec<String> = Vec::new();
    let mut i: usize = 0;
    while i < cfg.tasks.len()
        invariant
            i <= cfg.tasks.len(),
            keys.len() == i,
            tasks == cfg@.tasks,
            forall|j: int| 0 <= j < i ==> (#[trigger] keys@[j])@ == tasks[j].key,
        decreases cfg.tasks.len() - i,
    {
        keys.push(cfg.tasks[i].key.clone());
        i += 1;
    }
    assert(text::texts(keys@) =~= task_keys(tasks));
    let width = text::width_of(&keys);
    out.push("Available tasks:".to_string());
    let mut i: usize = 0;
    while i < cfg.tasks.len()
        invariant
            i <= cfg.tasks.len(),
            out.len() == i + 1,
            tasks == cfg@.tasks,
            out@[0]@ == "Available tasks:"@,
            forall|j: int|
                0 < j <= i ==> (#[trigger] out@[j])@ == "  "@ + text::padded(
                    tasks[j - 1].key,
                    width as nat,
                ) + "  "@ + description(tasks[j - 1]),
        decreases cfg.tasks.len() - i,
    {
        let task = &cfg.tasks[i];
        assert(tasks[i as int] == task@);
        let key = text::pad(task.key.as_str(), width);
        let mut line = text::join3("  ", key.as_str(), "  ");
        line.append(describe(task).as_str());
        out.push(line);
        i += 1;
    }
    assert(text::texts(out@) =~= list_lines(cfg@));
    out
}

/// What a detected ecosystem is called.
pub open spec fn label_of(eco: Ecosystem) -> Seq<char> {
    match eco {
        Ecosystem::Npm => "an npm package (package.json)"@,
        Ecosystem::Bun => "a bun package (package.json + bun lockfile)"@,
        Ecosystem::Cargo => "a Cargo crate (Cargo.toml)"@,
        Ecosystem::Go => "a Go module (go.mod)"@,
        Ecosystem::Python => "a Python project (pyproject.toml)"@,
    }
}

/// What a detected ecosystem is called.
fn ecosystem_label(eco: Ecosystem) -> (r: &'static str)
    ensures
        r@ == label_of(eco),
{
    match eco {
        Ecosystem::Npm => "an npm package (package.json)",
        Ecosystem::Bun => "a bun package (package.json + bun lockfile)",
        Ecosystem::Cargo => "a Cargo crate (Cargo.toml)",
        Ecosystem::Go => "a Go module (go.mod)",
        Ecosystem::Python => "a Python project (pyproject.toml)",
    }
}

/// The lines that `--list` prints where there is no config, for the nearest
/// package and its marker files.
pub open spec fn configless_lines(found: Option<(Seq<char>, Markers)>) -> Seq<Seq<char>> {
    match found {
        Some((root, markers)) => {
            let runner = match detect::ecosystem_of(markers) {
                Some(eco) => label_of(eco),
                None => "a native runner"@,
            };
            seq![
                "No tasks.toml — tsr runs your package scripts directly."@,
                "Detected "@ + runner + " at "@ + root + "."@,
                "Run one with:  tsr <script>   (e.g. tsr dev, tsr build)"@,
            ]
        },
        None => seq![
            "No tasks.toml, and no package.json / Cargo.toml / go.mod / pyproject.toml here."@,
            "Run `tsr --init` to create a config, or cd into a package."@,
        ],
    }
}

/// The lines that `--list` prints where there is no config, for the nearest
/// package and its marker files.
pub fn list_configless(found: &Option<(String, Markers)>) -> (r: Vec<String>)
    ensures
        text::texts(r@) == configless_lines(
            match *found {
                Some(f) => Some((f.0@, f.1)),
                None => None,
            },
        ),
{
    let mut out: Vec<String> = Vec::new();
    match found {
        Some(f) => {
            let runner = match detect::detect(&f.1) {
                Some(eco) => ecosystem_label(eco),
                None => "a native runner",
            };
            out.push("No tasks.toml — tsr runs your package scripts directly.".to_string());
            let mut line = text::join3("Detected ", runner, " at ");
            line.append(f.0.as_str());
            line.append(".");
            out.push(line);
            out.push("Run one with:  tsr <script>   (e.g. tsr dev, tsr build)".to_string());
            assert(text::texts(out@) =~= configless_lines(Some((f.0@, f.1))));
        },
        None => {
            out.push(
                "No tasks.toml, and no package.json / Cargo.toml / go.mod / pyproject.toml here.".to_string(),
            );
            out.push("Run `tsr --init` to create a config, or cd into a package.".to_string());
            assert(text::texts(out@) =~= configless_lines(None));
        },
    }
    out
}

/// A starter config that `--init` is to write, and the lines it prints then.
pub struct Scaffold {
    pub path: String,
    pub contents: String,
    pub notes: Vec<String>,
}

/// The starter config for a directory; refused where there is a config already.
pub fn init(dir: &str, exists: bool) -> (r: Result<Scaffold, TsrError>)
    ensures
        ({
            let file = path::joined_path(dir@, config::CONFIG_FILE@);
            match r {
                Ok(s) => !exists && s.path@ == file && s.contents@ == INIT_TEMPLATE@
                    && text::texts(s.notes@) == seq![
                    "Created "@ + file,
                    "Next: edit it, then run `tsr <task>` or `tsr --list`."@,
                ],
                Err(e) => exists && e@ == ErrorView::Runtime(
                    "'"@ + file + "' already exists — not overwriting"@,
                ),
            }
        }),
{
    let file = path::join(dir, config::CONFIG_FILE);
    if exists {
        let msg = text::join3("'", file.as_str(), "' already exists — not overwriting");
        return Err(TsrError::runtime(msg.as_str()));
    }
    let mut notes: Vec<String> = Vec::new();
    notes.push(text::join2("Created ", file.as_str()));
    notes.push("Next: edit it, then run `tsr <task>` or `tsr --list`.".to_string());
    assert(text::texts(notes@) =~= seq![
        "Created "@ + file@,
        "Next: edit it, then run `tsr <task>` or `tsr --list`."@,
    ]);
    Ok(Scaffold { path: file, contents: INIT_TEMPLATE.to_string(), notes })
}

/// The config to run a task with where there is no `tasks.toml`, given the
/// nearest package on the way up from `cwd`.
pub open spec fn implicit_for(cwd: Seq<char>, task: Seq<char>, root: Option<Seq<char>>) -> Result<
    ConfigView,
    ErrorView,
> {
    if task.contains('#') {
        Err(
            ErrorView::Config(
                "package-qualified task '"@ + task
                    + "' needs a tasks.toml with a [workspace]; none was found in '"@ + cwd
                    + "' or any parent"@,
            ),
        )
    } else {
        match root {
            Some(root) => Ok(config::implicit_view(root, task)),
            None => Err(
                ErrorView::Config(
                    "no 'tasks.toml' found in '"@ + cwd
                        + "' or any parent, and no package.json / Cargo.toml / go.mod / pyproject.toml to detect a runner from — run `tsr --init` to create a config, or cd into a package"@,
                ),
            ),
        }
    }
}

/// The config to run a task with where there is no `tasks.toml`.
pub fn implicit_config(cwd: &str, task: &str, root: Option<&str>) -> (r: Result<Config, TsrError>)
    ensures
        ({
            let found = match root {
                Some(s) => Some(s@),
                None => None,
            };
            match r {
                Ok(cfg) => implicit_for(cwd@, task@, found) == Ok::<ConfigView, ErrorView>(cfg@),
                Err(e) => implicit_for(cwd@, task@, found) == Err::<ConfigView, ErrorView>(e@),
            }
        }),
{
    let cs = text::chars(task);
    let at = text::find(&cs, '#', 0);
    proof {
        text::lemma_index_from(task@, '#', 0);
    }
    if at < cs.len() {
        assert(task@[at as int] == '#');
        let mut msg = text::join3(
            "package-qualified task '",
            task,
            "' needs a tasks.toml with a [workspace]; none was found in '",
        );
        msg.append(cwd);
        msg.append("' or any parent");
        return Err(TsrError::config(msg.as_str()));
    }
    match root {
        Some(root) => Ok(config::implicit(root, task)),
        None => {
            let msg = text::join3(
                "no 'tasks.toml' found in '",
                cwd,
                "' or any parent, and no package.json / Cargo.toml / go.mod / pyproject.toml to detect a runner from — run `tsr --init` to create a config, or cd into a package",
            );
            Err(TsrError::config(msg.as_str()))
        },
    }
}

// ---------------------------------------------------------------------------
// Laws
// ---------------------------------------------------------------------------
proof fn lemma_no_builtin(word: Seq<char>)
    requires
        !is_flag(word),
    ensures
        word != "--"@,
        word != "--list"@,
        word != "--init"@,
        word != "--config"@,
        word != "-h"@,
        word != "--help"@,
        word != "-V"@,
        word != "--version"@,
{
    reveal_strlit("--");
    reveal_strlit("--list");
    reveal_strlit("--init");
    reveal_strlit("--config");
    reveal_strlit("-h");
    reveal_strlit("--help");
    reveal_strlit("-V");
    reveal_strlit("--version");
}

/// A bare first word is always a task name, `list` and `init` among them, and
/// everything behind `--` reaches the task as it stands.
pub proof fn law_a_bare_word_is_a_task(word: Seq<char>, tail: Seq<Seq<char>>)
    requires
        !is_flag(word),
    ensures
        command_line(seq![word]) == Ok::<CliView, ErrorView>(
            CliView::Run { task: word, passthrough: Seq::empty(), opts: no_options() },
        ),
        command_line(seq![word, "--"@] + tail) == Ok::<CliView, ErrorView>(
            CliView::Run { task: word, passthrough: tail, opts: no_options() },
        ),
{
    lemma_no_builtin(word);
    reveal_with_fuel(dashes, 3);
    let one = seq![word];
    assert(one.take(1) =~= one);
    assert(one.skip(1) =~= Seq::empty());
    let all = seq![word, "--"@] + tail;
    assert(all[0] == word && all[1] == "--"@);
    assert(all.take(1) =~= one);
    assert(all.skip(2) =~= tail);
}

/// `--since <ref>` and `--since=<ref>` mean the same, for every ref but `--`,
/// which as a word of its own ends the options.
pub proof fn law_both_spellings_of_since(task: Seq<char>, v: Seq<char>)
    requires
        !is_flag(task),
        v.len() > 0,
        v != "--"@,
    ensures
        command_line(seq![task, "--since"@, v]) == command_line(seq![task, "--since="@ + v]),
        command_line(seq![task, "--since"@, v]) == Ok::<CliView, ErrorView>(
            CliView::Run {
                task,
                passthrough: Seq::empty(),
                opts: OptionsView { since: Some(v), ..no_options() },
            },
        ),
{
    lemma_no_builtin(task);
    reveal_strlit("--");
    reveal_strlit("--since");
    reveal_strlit("--since=");
    reveal_strlit("=");
    assert("--since"@ + "="@ =~= "--since="@);
    reveal_with_fuel(dashes, 4);
    reveal_with_fuel(options, 3);
    let two = seq![task, "--since"@, v];
    assert(two.take(3) =~= two);
    let rest = two.skip(1);
    assert(rest =~= seq!["--since"@, v]);
    assert(text::after_prefix(rest[0], "--since="@) is None);
    assert(taken(rest, 0, "--since"@) == TakenView::Value(v, 2));
    let joined = "--since="@ + v;
    assert(joined[2] == 's');
    let one = seq![task, joined];
    assert(one.take(2) =~= one);
    let single = one.skip(1);
    assert(single =~= seq![joined]);
    assert(joined.skip("--since="@.len() as int) =~= v);
    assert(joined.take("--since="@.len() as int) =~= "--since="@);
    assert(text::after_prefix(joined, "--since="@) == Some(v));
    assert(taken(single, 0, "--since"@) == TakenView::Value(v, 1));
}

proof fn lemma_dashes(args: Seq<Seq<char>>, from: int, n: int)
    requires
        0 <= from <= n <= args.len(),
        forall|i: int| from <= i < n ==> #[trigger] args[i] != "--"@,
        n < args.len() ==> args[n] == "--"@,
    ensures
        dashes(args, from) == n,
    decreases n - from,
{
    if from < n {
        lemma_dashes(args, from + 1, n);
    }
}

/// What stands behind the first `--` is forwarded as it is, whatever it looks like, and
/// is never read as an option; what stands in front of it is read.
pub proof fn law_forwarded_arguments(head: Seq<Seq<char>>, tail: Seq<Seq<char>>)
    requires
        forall|i: int| 0 <= i < head.len() ==> #[trigger] head[i] != seq!['-', '-'],
    ensures
        command_line(head.push(seq!['-', '-']) + tail) == asked(head, tail),
        command_line(head) == asked(head, Seq::empty()),
        head.len() > 0 && (head[0].len() == 0 || head[0][0] != '-') ==> (asked(head, tail) matches Ok(c)
            ==> c is Run && c->task == head[0] && c->passthrough == tail && options(
            head[0],
            head.skip(1),
            0,
            no_options(),
        ) == Ok::<OptionsView, ErrorView>(c->opts)),
        head.len() > 0 && (head[0].len() == 0 || head[0][0] != '-') ==> (asked(head, tail) matches Err(e)
            ==> options(head[0], head.skip(1), 0, no_options()) == Err::<OptionsView, ErrorView>(e)),
{
    reveal_strlit("--");
    assert("--"@ =~= seq!['-', '-']);
    let n = head.len() as int;
    let all = head.push(seq!['-', '-']) + tail;
    assert forall|i: int| 0 <= i < n implies #[trigger] all[i] != "--"@ by {
        assert(all[i] == head[i]);
    }
    assert(all[n] == "--"@);
    lemma_dashes(all, 0, n);
    lemma_dashes(head, 0, n);
    assert(all.take(n) =~= head);
    assert(all.skip(n + 1) =~= tail);
    assert(head.take(n) =~= head);
    if head.len() > 0 && (head[0].len() == 0 || head[0][0] != '-') {
        lemma_no_builtin(head[0]);
    }
}

proof fn lemma_options_shift(
    task: Seq<char>,
    front: Seq<Seq<char>>,
    rest: Seq<Seq<char>>,
    i: int,
    o: OptionsView,
)
    requires
        0 <= i <= rest.len(),
    ensures
        options(task, front + rest, front.len() + i, o) == options(task, rest, i, o),
    decreases rest.len() - i,
{
    let all = front + rest;
    let n = front.len() as int;
    if i < rest.len() {
        assert(all[n + i] == rest[i]);
        if i + 1 < rest.len() {
            assert(all[n + i + 1] == rest[i + 1]);
        }
        match option_step(task, rest, i, o) {
            Ok((next_opts, next)) => {
                if i < next <= rest.len() {
                    lemma_options_shift(task, front, rest, next, next_opts);
                }
            },
            Err(_) => {},
        }
    }
}

proof fn lemma_other(rest: Seq<Seq<char>>, i: int, flag: Seq<char>, k: int)
    requires
        ({
            let arg = rest[i];
            ||| arg.len() < flag.len()
            ||| 0 <= k < arg.len() && k < flag.len() && arg[k] != flag[k]
            ||| k == flag.len() && k < arg.len() && arg[k] != '='
        }),
    ensures
        taken(rest, i, flag) == TakenView::Other,
{
    reveal_strlit("=");
    let arg = rest[i];
    let full = flag + "="@;
    assert(full[flag.len() as int] == '=');
    if text::has_prefix(arg, full) {
        if 0 <= k < full.len() {
            assert(arg.take(full.len() as int)[k] == arg[k]);
        }
    }
}

proof fn lemma_taken(rest: Seq<Seq<char>>, i: int, flag: Seq<char>, v: Seq<char>)
    requires
        0 <= i < rest.len(),
        v.len() > 0,
    ensures
        rest[i] == flag + seq!['='] + v ==> taken(rest, i, flag) == TakenView::Value(v, i + 1),
        rest[i] == flag && i + 1 < rest.len() && rest[i + 1] == v ==> taken(rest, i, flag)
            == TakenView::Value(v, i + 2),
        rest[i] == flag && (i + 1 == rest.len() || rest[i + 1].len() == 0) ==> taken(rest, i, flag)
            is Missing,
        rest[i] == flag + seq!['='] ==> taken(rest, i, flag) is Missing,
{
    reveal_strlit("=");
    assert("="@ =~= seq!['=']);
    text::law_prefixes(rest[i], flag + "="@, v);
    text::law_prefixes(rest[i], flag + "="@, Seq::empty());
    assert(flag + "="@ + Seq::<char>::empty() =~= flag + "="@);
}

proof fn lemma_flags()
    ensures
        "--since"@.len() == 7 && "--since"@[2] == 's',
        "--resume-from"@.len() == 13 && "--resume-from"@[2] == 'r' && "--resume-from"@[4] == 's',
        "--reporter"@.len() == 10 && "--reporter"@[2] == 'r' && "--reporter"@[4] == 'p',
        "--reporter-file"@.len() == 15 && "--reporter-file"@[2] == 'r' && "--reporter-file"@[4]
            == 'p' && "--reporter-file"@[10] == '-',
        "--no-bail"@.len() == 9 && "--no-bail"@[2] == 'n',
        "--dry-run"@.len() == 9 && "--dry-run"@[2] == 'd',
        "--allow-unsafe-env"@.len() == 18 && "--allow-unsafe-env"@[2] == 'a',
{
    reveal_strlit("--since");
    reveal_strlit("--resume-from");
    reveal_strlit("--reporter");
    reveal_strlit("--reporter-file");
    reveal_strlit("--no-bail");
    reveal_strlit("--dry-run");
    reveal_strlit("--allow-unsafe-env");
}

/// The options that a value sets, by the flag in front of it.
pub open spec fn with_value(flag: Seq<char>, v: Seq<char>, o: OptionsView) -> OptionsView {
    if flag == "--since"@ {
        OptionsView { since: Some(v), ..o }
    } else if flag == "--resume-from"@ {
        OptionsView { resume_from: Some(v), ..o }
    } else {
        OptionsView { reporter_file: Some(v), ..o }
    }
}

/// A flag with a value sets that value and nothing else, whether the value follows it or
/// stands behind a `=`, and the rest of the line is read as if it came alone. Without a
/// value it is an error.
pub proof fn law_options_with_a_value(
    task: Seq<char>,
    flag: Seq<char>,
    v: Seq<char>,
    rest: Seq<Seq<char>>,
    o: OptionsView,
)
    requires
        v.len() > 0,
        flag == "--since"@ || flag == "--resume-from"@ || flag == "--reporter-file"@,
    ensures
        options(task, seq![flag, v] + rest, 0, o) == options(task, rest, 0, with_value(flag, v, o)),
        options(task, seq![flag + seq!['='] + v] + rest, 0, o) == options(
            task,
            rest,
            0,
            with_value(flag, v, o),
        ),
        options(task, seq![flag], 0, o) is Err,
        options(task, seq![flag + seq!['=']] + rest, 0, o) is Err,
{
    lemma_flags();
    let two = seq![flag, v];
    let one = seq![flag + seq!['='] + v];
    let none = seq![flag];
    let empty = seq![flag + seq!['=']];
    let a = two + rest;
    let b = one + rest;
    let c = empty + rest;
    assert(a[0] == flag && a[1] == v && b[0] == one[0] && c[0] == empty[0] && none[0] == flag);
    assert(one[0].subrange(0, flag.len() as int) =~= flag);
    assert(forall|k: int| 0 <= k < flag.len() ==> one[0][k] == flag[k]);
    assert(forall|k: int| 0 <= k < flag.len() ==> empty[0][k] == flag[k]);
    lemma_taken(a, 0, flag, v);
    lemma_taken(b, 0, flag, v);
    lemma_taken(none, 0, flag, v);
    lemma_taken(c, 0, flag, v);
    if flag != "--since"@ {
        lemma_other(a, 0, "--since"@, 2);
        lemma_other(b, 0, "--since"@, 2);
        lemma_other(c, 0, "--since"@, 2);
        lemma_other(none, 0, "--since"@, 2);
    }
    if flag == "--reporter-file"@ {
        lemma_other(a, 0, "--resume-from"@, 4);
        lemma_other(b, 0, "--resume-from"@, 4);
        lemma_other(c, 0, "--resume-from"@, 4);
        lemma_other(none, 0, "--resume-from"@, 4);
        lemma_other(a, 0, "--reporter"@, 10);
        lemma_other(b, 0, "--reporter"@, 10);
        lemma_other(c, 0, "--reporter"@, 10);
        lemma_other(none, 0, "--reporter"@, 10);
    }
    lemma_options_shift(task, two, rest, 0, with_value(flag, v, o));
    lemma_options_shift(task, one, rest, 0, with_value(flag, v, o));
}

/// `--reporter` takes `human` or `ndjson`; any other name is an error.
pub proof fn law_reporters(task: Seq<char>, v: Seq<char>, rest: Seq<Seq<char>>, o: OptionsView)
    requires
        v.len() > 0,
    ensures
        v == "human"@ ==> options(task, seq!["--reporter"@, v] + rest, 0, o) == options(
            task,
            rest,
            0,
            OptionsView { reporter: Reporter::Human, ..o },
        ),
        v == "ndjson"@ ==> options(task, seq!["--reporter"@, v] + rest, 0, o) == options(
            task,
            rest,
            0,
            OptionsView { reporter: Reporter::Ndjson, ..o },
        ),
        v != "human"@ && v != "ndjson"@ ==> options(task, seq!["--reporter"@, v] + rest, 0, o)
            == Err::<OptionsView, ErrorView>(
            ErrorView::Runtime("unknown reporter '"@ + v + "' — use 'human' or 'ndjson'"@),
        ),
        options(task, seq!["--reporter"@ + seq!['='] + v] + rest, 0, o) == options(
            task,
            seq!["--reporter"@, v] + rest,
            0,
            o,
        ),
        options(task, seq!["--reporter"@], 0, o) is Err,
{
    lemma_flags();
    reveal_strlit("human");
    reveal_strlit("ndjson");
    assert("human"@.len() == 5 && "ndjson"@.len() == 6);
    let flag = "--reporter"@;
    let two = seq![flag, v];
    let one = seq![flag + seq!['='] + v];
    let none = seq![flag];
    let a = two + rest;
    let b = one + rest;
    assert(a[0] == flag && a[1] == v && b[0] == one[0] && none[0] == flag);
    assert(one[0].subrange(0, flag.len() as int) =~= flag);
    assert(forall|k: int| 0 <= k < flag.len() ==> one[0][k] == flag[k]);
    lemma_taken(a, 0, flag, v);
    lemma_taken(b, 0, flag, v);
    lemma_taken(none, 0, flag, v);
    lemma_other(a, 0, "--since"@, 2);
    lemma_other(b, 0, "--since"@, 2);
    lemma_other(none, 0, "--since"@, 2);
    lemma_other(a, 0, "--resume-from"@, 4);
    lemma_other(b, 0, "--resume-from"@, 4);
    lemma_other(none, 0, "--resume-from"@, 4);
    if let Some(r) = reporter_named(v) {
        lemma_options_shift(task, two, rest, 0, OptionsView { reporter: r, ..o });
        lemma_options_shift(task, one, rest, 0, OptionsView { reporter: r, ..o });
    }
}

/// Each switch sets what it is called after and nothing else, and any other word is an
/// error that names it.
pub proof fn law_switches(task: Seq<char>, word: Seq<char>, rest: Seq<Seq<char>>, o: OptionsView)
    ensures
        options(task, seq!["--no-bail"@] + rest, 0, o) == options(
            task,
            rest,
            0,
            OptionsView { no_bail: true, ..o },
        ),
        options(task, seq!["--dry-run"@] + rest, 0, o) == options(
            task,
            rest,
            0,
            OptionsView { dry_run: true, ..o },
        ),
        options(task, seq!["--allow-unsafe-env"@] + rest, 0, o) == options(
            task,
            rest,
            0,
            OptionsView { allow_unsafe_env: true, ..o },
        ),
        options(task, Seq::empty(), 0, o) == Ok::<OptionsView, ErrorView>(o),
        word.len() == 0 || word[0] != '-' ==> options(task, seq![word] + rest, 0, o) == Err::<
            OptionsView,
            ErrorView,
        >(
            ErrorView::Runtime(
                "unexpected argument '"@ + word + "' — forward args after '--' (e.g. `tsr "@ + task
                    + " -- "@ + word + "`)"@,
            ),
        ),
{
    lemma_flags();
    lemma_switch(task, "--no-bail"@, rest, o);
    lemma_switch(task, "--dry-run"@, rest, o);
    lemma_switch(task, "--allow-unsafe-env"@, rest, o);
    if word.len() == 0 || word[0] != '-' {
        reveal_strlit("--since");
        reveal_strlit("--resume-from");
        reveal_strlit("--reporter");
        reveal_strlit("--reporter-file");
        reveal_strlit("--no-bail");
        reveal_strlit("--dry-run");
        reveal_strlit("--allow-unsafe-env");
        let a = seq![word] + rest;
        assert(a[0] == word);
        lemma_other(a, 0, "--since"@, 0);
        lemma_other(a, 0, "--resume-from"@, 0);
        lemma_other(a, 0, "--reporter"@, 0);
        lemma_other(a, 0, "--reporter-file"@, 0);
        assert("--no-bail"@[0] == '-' && "--dry-run"@[0] == '-' && "--allow-unsafe-env"@[0] == '-');
    }
}

proof fn lemma_switch(task: Seq<char>, word: Seq<char>, rest: Seq<Seq<char>>, o: OptionsView)
    requires
        word == "--no-bail"@ || word == "--dry-run"@ || word == "--allow-unsafe-env"@,
    ensures
        options(task, seq![word] + rest, 0, o) == options(
            task,
            rest,
            0,
            if word == "--no-bail"@ {
                OptionsView { no_bail: true, ..o }
            } else if word == "--dry-run"@ {
                OptionsView { dry_run: true, ..o }
            } else {
                OptionsView { allow_unsafe_env: true, ..o }
            },
        ),
{
    lemma_flags();
    let one = seq![word];
    let a = one + rest;
    assert(a[0] == word);
    lemma_other(a, 0, "--since"@, 2);
    lemma_other(a, 0, "--resume-from"@, 2);
    lemma_other(a, 0, "--reporter"@, 2);
    lemma_other(a, 0, "--reporter-file"@, 2);
    lemma_options_shift(
        task,
        one,
        rest,
        0,
        if word == "--no-bail"@ {
            OptionsView { no_bail: true, ..o }
        } else if word == "--dry-run"@ {
            OptionsView { dry_run: true, ..o }
        } else {
            OptionsView { allow_unsafe_env: true, ..o }
        },
    );
}

/// The options that a line begins with, before any is read: none is set, and the
/// terminal is given the report for people.
pub proof fn law_nothing_is_set_by_itself()
    ensures
        no_options().since is None,
        no_options().resume_from is None,
        !no_options().no_bail,
        !no_options().dry_run,
        !no_options().allow_unsafe_env,
        no_options().reporter == Reporter::Human,
        no_options().reporter_file is None,
{
}

/// What the flags ask for that are no task's. Those that do something stand alone; help
/// and version are given whatever follows; any other flag, and no word at all, is an
/// error that shows the help text.
pub proof fn law_what_the_flags_ask_for(
    flag: Seq<char>,
    more: Seq<Seq<char>>,
    tail: Seq<Seq<char>>,
)
    ensures
        ({
            let r = asked(seq![flag] + more, tail);
            &&& flag == "--list"@ && more.len() == 0 ==> r == Ok::<CliView, ErrorView>(CliView::List)
            &&& flag == "--init"@ && more.len() == 0 ==> r == Ok::<CliView, ErrorView>(CliView::Init)
            &&& flag == "--config"@ && more.len() == 0 ==> r == Ok::<CliView, ErrorView>(
                CliView::Config,
            )
            &&& (flag == "--list"@ || flag == "--init"@ || flag == "--config"@) && more.len() > 0
                ==> r == Err::<CliView, ErrorView>(
                ErrorView::Runtime("'"@ + flag + "' takes no arguments"@),
            )
            &&& flag == "-h"@ || flag == "--help"@ ==> r == Ok::<CliView, ErrorView>(CliView::Help)
            &&& flag == "-V"@ || flag == "--version"@ ==> r == Ok::<CliView, ErrorView>(
                CliView::Version,
            )
            &&& flag.len() > 0 && flag[0] == '-' && flag != "--list"@ && flag != "--init"@ && flag
                != "--config"@ && flag != "-h"@ && flag != "--help"@ && flag != "-V"@ && flag
                != "--version"@ ==> r == Err::<CliView, ErrorView>(
                ErrorView::Runtime("unknown flag '"@ + flag + "'\n\n"@ + USAGE@),
            )
        }),
        asked(Seq::empty(), tail) == Err::<CliView, ErrorView>(
            ErrorView::Runtime("no task specified\n\n"@ + USAGE@),
        ),
{
    reveal_strlit("--list");
    reveal_strlit("--init");
    reveal_strlit("--config");
    reveal_strlit("-h");
    reveal_strlit("--help");
    reveal_strlit("-V");
    reveal_strlit("--version");
    assert("--list"@.len() == 6 && "--init"@.len() == 6 && "--list"@[2] == 'l' && "--init"@[2]
        == 'i');
    assert("--config"@.len() == 8 && "-h"@.len() == 2 && "-V"@.len() == 2 && "-h"@[1] == 'h'
        && "-V"@[1] == 'V');
    assert("--help"@.len() == 6 && "--help"@[2] == 'h' && "--version"@.len() == 9);
    let head = seq![flag] + more;
    assert(head[0] == flag);
}

/// Without a config a task is run by the runner of the nearest package, as long as it
/// names no package itself; where there is no package either, that is an error.
pub proof fn law_tasks_without_a_config(cwd: Seq<char>, task: Seq<char>, root: Option<Seq<char>>)
    ensures
        implicit_for(cwd, task, root) is Ok <==> !task.contains('#') && root is Some,
        implicit_for(cwd, task, root) matches Ok(c) ==> c.root == root->0 && c.implicit
            && c.tasks.len() == 1 && c.tasks[0].key == task && c.tasks[0].run is None
            && c.tasks[0].delegate is None,
        task.contains('#') ==> implicit_for(cwd, task, root) == Err::<ConfigView, ErrorView>(
            ErrorView::Config(
                "package-qualified task '"@ + task
                    + "' needs a tasks.toml with a [workspace]; none was found in '"@ + cwd
                    + "' or any parent"@,
            ),
        ),
{
}

/// Every task is listed, on a line of its own and in the order of the config: its key,
/// with blanks up to the width of the widest, and then its form.
pub proof fn law_every_task_is_listed(cfg: ConfigView, i: int)
    requires
        0 <= i < cfg.tasks.len(),
    ensures
        list_lines(cfg).len() == cfg.tasks.len() + 1,
        list_lines(cfg)[0] == "Available tasks:"@,
        list_lines(cfg)[i + 1].take(2 + cfg.tasks[i].key.len() as int) == seq![' ', ' ']
            + cfg.tasks[i].key,
        exists|gap: Seq<char>|
            list_lines(cfg)[i + 1] == seq![' ', ' '] + cfg.tasks[i].key + gap + description(
                cfg.tasks[i],
            ) && #[trigger] gap.len() >= 2 && forall|k: int|
                0 <= k < gap.len() ==> #[trigger] gap[k] == ' ',
{
    reveal_strlit("  ");
    assert("  "@ =~= seq![' ', ' ']);
    let key = cfg.tasks[i].key;
    let width = text::widest(task_keys(cfg.tasks), cfg.tasks.len() as int);
    let line = list_lines(cfg)[i + 1];
    text::law_padding(key, width);
    let pad = text::padded(key, width);
    let gap = pad.skip(key.len() as int) + seq![' ', ' '];
    assert(pad =~= key + pad.skip(key.len() as int)) by {
        assert(pad.take(key.len() as int) == key);
        assert(pad =~= pad.take(key.len() as int) + pad.skip(key.len() as int));
    }
    assert(line =~= seq![' ', ' '] + key + gap + description(cfg.tasks[i]));
    assert forall|k: int| 0 <= k < gap.len() implies #[trigger] gap[k] == ' ' by {
        if k < pad.len() - key.len() {
            assert(gap[k] == pad[key.len() + k]);
        }
    }
    assert(line.take(2 + key.len() as int) =~= seq![' ', ' '] + key);
}

/// A task's form says each thing that the task has, and nothing of what it has not; a
/// task that has none of them is found by itself.
pub proof fn law_forms_say_what_there_is(t: TaskView)
    ensures
        t.delegate is None && t.run is None && t.packages is None && t.dir is None && t.deps.len()
            == 0 && !t.parallel ==> description(t) == "auto"@,
        t.run is Some ==> description_parts(t).contains("run: "@ + t.run->0),
        t.dir is Some ==> description_parts(t).contains("dir: "@ + t.dir->0),
        t.packages is Some ==> description_parts(t).contains(
            "packages: "@ + text::joined(t.packages->0, ", "@),
        ),
        t.deps.len() > 0 ==> description_parts(t).contains("deps: "@ + text::joined(t.deps, ", "@)),
        t.parallel ==> description_parts(t).contains("parallel"@),
        t.delegate matches Some(DelegateView::Bin(bin)) ==> description_parts(t).contains(
            "delegate: "@ + bin,
        ),
        t.delegate matches Some(DelegateView::Full { bin, args }) ==> description_parts(t).contains(
            "delegate: "@ + (bin + " (custom)"@),
        ),
        description_parts(t).len() == (if t.delegate is Some {
            1int
        } else {
            0
        }) + (if t.run is Some {
            1int
        } else {
            0
        }) + (if t.packages is Some {
            1int
        } else {
            0
        }) + (if t.dir is Some {
            1int
        } else {
            0
        }) + (if t.deps.len() > 0 {
            1int
        } else {
            0
        }) + (if t.parallel {
            1int
        } else {
            0
        }),
        description_parts(t).len() > 0 ==> description(t) == text::joined(
            description_parts(t),
            "  ·  "@,
        ),
{
    let p0 = Seq::<Seq<char>>::empty();
    let p1 = with_part(p0, labelled("delegate: "@, backend(t.delegate)));
    let p2 = with_part(p1, labelled("run: "@, t.run));
    let p3 = with_part(p2, labelled("packages: "@, listed(t.packages)));
    let p4 = with_part(p3, labelled("dir: "@, t.dir));
    let p5 = if t.deps.len() > 0 {
        p4.push("deps: "@ + text::joined(t.deps, ", "@))
    } else {
        p4
    };
    let p6 = description_parts(t);
    assert forall|k: int| 0 <= k < p1.len() implies p6[k] == #[trigger] p1[k] by {}
    assert forall|k: int| 0 <= k < p2.len() implies p6[k] == #[trigger] p2[k] by {}
    assert forall|k: int| 0 <= k < p3.len() implies p6[k] == #[trigger] p3[k] by {}
    assert forall|k: int| 0 <= k < p4.len() implies p6[k] == #[trigger] p4[k] by {}
    assert forall|k: int| 0 <= k < p5.len() implies p6[k] == #[trigger] p5[k] by {}
    if t.delegate is Some {
        assert(p6[p1.len() - 1] == p1.last());
    }
    if t.run is Some {
        assert(p6[p2.len() - 1] == p2.last());
    }
    if t.packages is Some {
        assert(p6[p3.len() - 1] == p3.last());
    }
    if t.dir is Some {
        assert(p6[p4.len() - 1] == p4.last());
    }
    if t.deps.len() > 0 {
        assert(p6[p5.len() - 1] == p5.last());
    }
    if t.parallel {
        assert(p6[p6.len() - 1] == "parallel"@);
    }
}

/// Without a config the list says which package was found, by its runner and where, or
/// that there is none.
pub proof fn law_listing_without_a_config(root: Seq<char>, markers: Markers)
    ensures
        ({
            let lines = configless_lines(Some((root, markers)));
            &&& lines.len() == 3
            &&& detect::ecosystem_of(markers) == Some(Ecosystem::Npm) ==> lines[1] == "Detected "@
                + "an npm package (package.json)"@ + " at "@ + root + "."@
            &&& detect::ecosystem_of(markers) == Some(Ecosystem::Bun) ==> lines[1] == "Detected "@
                + "a bun package (package.json + bun lockfile)"@ + " at "@ + root + "."@
            &&& detect::ecosystem_of(markers) == Some(Ecosystem::Cargo) ==> lines[1]
                == "Detected "@ + "a Cargo crate (Cargo.toml)"@ + " at "@ + root + "."@
            &&& detect::ecosystem_of(markers) == Some(Ecosystem::Go) ==> lines[1] == "Detected "@
                + "a Go module (go.mod)"@ + " at "@ + root + "."@
            &&& detect::ecosystem_of(markers) == Some(Ecosystem::Python) ==> lines[1]
                == "Detected "@ + "a Python project (pyproject.toml)"@ + " at "@ + root + "."@
        }),
        configless_lines(None).len() == 2,
        configless_lines(None)[1] == "Run `tsr --init` to create a config, or cd into a package."@,
{
}

} // verus!
