//! The preview of a config: the tree of tasks and dependencies, and the command
//! that each task would run.

use vstd::prelude::*;

use crate::config;
use crate::config::{Config, ConfigView, Task, TaskView};
use crate::detect;
use crate::detect::Markers;
use crate::env;
use crate::resolve;
use crate::resolve::{Invocation, InvocationView};
use crate::text;

verus! {

// ---------------------------------------------------------------------------
// Styled text
// ---------------------------------------------------------------------------
/// How a piece of text looks.
#[derive(Debug, Clone, Copy, PartialEq, Eq, Structural)]
pub enum Style {
    Plain,
    /// Dark gray.
    Dim,
    Gray,
    /// The accent colour.
    Accent,
    /// The accent colour, bold.
    AccentBold,
    Yellow,
    Red,
    /// White, bold.
    Strong,
    /// Black on the accent colour, bold.
    Badge,
}

/// A piece of text with a look.
#[derive(Debug, PartialEq, Eq)]
pub struct Span {
    pub text: String,
    pub style: Style,
}

/// A line of text.
#[derive(Debug, PartialEq, Eq)]
pub struct Line {
    pub spans: Vec<Span>,
}

/// A line of text: its pieces, each with its look.
pub type LineView = Seq<(Seq<char>, Style)>;

impl View for Line {
    type V = LineView;

    open spec fn view(&self) -> LineView {
        Seq::new(self.spans@.len(), |i: int| (self.spans@[i].text@, self.spans@[i].style))
    }
}

/// The views of a list of lines.
pub open spec fn line_views(v: Seq<Line>) -> Seq<LineView> {
    Seq::new(v.len(), |i: int| v[i]@)
}

impl Line {
    /// A line without anything on it.
    pub fn empty() -> (r: Line)
        ensures
            r@ == Seq::<(Seq<char>, Style)>::empty(),
    {
        let r = Line { spans: Vec::new() };
        assert(r@ =~= Seq::empty());
        r
    }

    /// Put a piece of text behind the others.
    pub fn add(&mut self, text: &str, style: Style)
        ensures
            final(self)@ == old(self)@.push((text@, style)),
    {
        let ghost before = self@;
        self.spans.push(Span { text: text.to_string(), style });
        assert(self@ =~= before.push((text@, style)));
    }

    /// The text of the line, without its look.
    pub fn plain(&self) -> (r: String)
        ensures
            r@ == plain_text(self@, self@.len() as int),
    {
        let ghost all = self@;
        let mut out = String::new();
        let mut i: usize = 0;
        while i < self.spans.len()
            invariant
                i <= self.spans.len(),
                all == self@,
                out@ == plain_text(all, i as int),
            decreases self.spans.len() - i,
        {
            assert(all[i as int].0 == self.spans@[i as int].text@);
            out.append(self.spans[i].text.as_str());
            i += 1;
        }
        out
    }
}

/// The text of the first `n` pieces.
pub open spec fn plain_text(line: LineView, n: int) -> Seq<char>
    decreases n,
{
    if n <= 0 {
        Seq::empty()
    } else {
        plain_text(line, n - 1) + line[n - 1].0
    }
}

/// Put a line behind the others.
pub fn push_line(out: &mut Vec<Line>, line: Line)
    ensures
        line_views(final(out)@) == line_views(old(out)@).push(line@),
{
    let ghost before = line_views(out@);
    let ghost seen = line@;
    out.push(line);
    assert(line_views(out@) =~= before.push(seen));
}

// ---------------------------------------------------------------------------
// Commands
// ---------------------------------------------------------------------------
/// What a task's form comes to, in words.
pub open spec fn base_command(t: TaskView, dir: Seq<char>, markers: Markers) -> Seq<char> {
    match resolve::invocation(t, dir, detect::ecosystem_of(markers)) {
        Ok(InvocationView::Direct { program, args }) => text::joined(seq![program] + args, " "@),
        Ok(InvocationView::Run(run)) => run,
        Err(_) => "auto-detect (native runner)"@,
    }
}

/// The command that a task would run, in words, `markers` being the marker files
/// of its directory.
pub open spec fn command_text(cfg: ConfigView, t: TaskView, markers: Markers) -> Seq<char> {
    if t.run is None && t.delegate is None && t.packages is None && t.deps.len() > 0 {
        "runs its deps only"@
    } else {
        let base = "→ "@ + base_command(t, env::base_dir(cfg.root, t), markers);
        let cmd = if t.args.len() == 0 {
            base
        } else {
            base + " "@ + text::joined(t.args, " "@)
        };
        match t.packages {
            Some(p) => if p.len() > 0 {
                cmd + "   × packages ["@ + text::joined(p, ", "@) + "]"@
            } else {
                cmd
            },
            None => cmd,
        }
    }
}

/// The command that a task would run, in words, `markers` being the marker files
/// of its directory.
pub fn dry_run(cfg: &Config, task: &Task, markers: &Markers) -> (r: String)
    ensures
        r@ == command_text(cfg@, task@, *markers),
{
    assert(task@.deps.len() == task.deps.len());
    if task.run.is_none() && task.delegate.is_none() && task.packages.is_none() && task.deps.len()
        > 0 {
        return "runs its deps only".to_string();
    }
    let dir = env::task_base_dir(cfg.root.as_str(), task);
    let base = match resolve::resolve(task, dir.as_str(), markers) {
        Ok(Invocation::Direct { program, args }) => {
            let ghost first = program@;
            let mut words: Vec<String> = Vec::new();
            words.push(program);
            assert(text::texts(words@) =~= seq![first]);
            text::extend(&mut words, &args);
            text::join(&words, " ")
        },
        Ok(Invocation::Run(run)) => run,
        Err(_) => "auto-detect (native runner)".to_string(),
    };
    let mut cmd = text::join2("→ ", base.as_str());
    assert(task@.args.len() == task.args.len());
    if task.args.len() > 0 {
        cmd.append(" ");
        cmd.append(text::join(&task.args, " ").as_str());
    }
    if let Some(p) = &task.packages {
        assert(text::texts(p@).len() == p.len());
        if p.len() > 0 {
            cmd.append("   × packages [");
            cmd.append(text::join(p, ", ").as_str());
            cmd.append("]");
        }
    }
    cmd
}

// ---------------------------------------------------------------------------
// The tree
// ---------------------------------------------------------------------------
/// Where a node hangs.
#[derive(Debug, Clone, Copy, PartialEq, Eq, Structural)]
pub enum Branch {
    /// It is a root.
    Root,
    /// On a branch with others below it.
    Mid,
    /// On the last branch.
    Last,
}

/// What is drawn before a node.
pub open spec fn connector(b: Branch) -> Seq<char> {
    match b {
        Branch::Root => Seq::empty(),
        Branch::Mid => "├─ "@,
        Branch::Last => "└─ "@,
    }
}

/// What is drawn before the dependencies of a node.
pub open spec fn deeper(prefix: Seq<char>, b: Branch) -> Seq<char> {
    match b {
        Branch::Root => Seq::empty(),
        Branch::Mid => prefix + "│  "@,
        Branch::Last => prefix + "   "@,
    }
}

/// The branch of the dependency at `i` of `n`.
pub open spec fn branch_at(i: int, n: int) -> Branch {
    if i + 1 == n {
        Branch::Last
    } else {
        Branch::Mid
    }
}

/// The start of a line.
pub open spec fn stem(prefix: Seq<char>, b: Branch) -> (Seq<char>, Style) {
    ("  "@ + prefix + connector(b), Style::Dim)
}

/// The line of a dependency that no task is called.
pub open spec fn undefined_line(key: Seq<char>, prefix: Seq<char>, b: Branch) -> LineView {
    seq![stem(prefix, b), ("● "@ + key, Style::Red), ("  (undefined task)"@, Style::Red)]
}

/// The line of a dependency that leads back to a task above it.
pub open spec fn cycle_line(key: Seq<char>, prefix: Seq<char>, b: Branch) -> LineView {
    seq![stem(prefix, b), ("↺ "@ + key, Style::Red), ("  (cycle)"@, Style::Red)]
}

/// The line of a `^name`: it stands for tasks in other packages.
pub open spec fn upstream_line(dep: Seq<char>, prefix: Seq<char>, b: Branch) -> LineView {
    seq![
        stem(prefix, b),
        ("▲ "@ + dep, Style::Yellow),
        ("  (in every package it depends on)"@, Style::Dim),
    ]
}

/// The line of a task, with the command it would run.
pub open spec fn task_line(
    cfg: ConfigView,
    t: TaskView,
    markers: Markers,
    prefix: Seq<char>,
    b: Branch,
) -> LineView {
    let head = seq![stem(prefix, b), ("● "@ + t.key, Style::AccentBold)];
    let tagged = if t.deps.len() == 0 {
        head
    } else if t.parallel {
        head.push(("  ⇉ parallel"@, Style::Yellow))
    } else {
        head.push(("  → sequential"@, Style::Yellow))
    };
    tagged.push(("   "@ + command_text(cfg, t, markers), Style::Gray))
}

/// The lines of a task and of everything it depends on. `above` are the tasks that
/// led here; a dependency that is among them is not followed.
pub open spec fn node(
    cfg: ConfigView,
    marks: Seq<Markers>,
    key: Seq<char>,
    prefix: Seq<char>,
    b: Branch,
    above: Seq<Seq<char>>,
) -> Seq<LineView>
    decreases cfg.tasks.len() - above.len(), 0int,
{
    let p = config::position(cfg.tasks, key);
    if p >= cfg.tasks.len() {
        seq![undefined_line(key, prefix, b)]
    } else if above.len() >= cfg.tasks.len() {
        seq![task_line(cfg, cfg.tasks[p], marks[p], prefix, b)]
    } else {
        seq![task_line(cfg, cfg.tasks[p], marks[p], prefix, b)] + below(
            cfg,
            marks,
            cfg.tasks[p].deps,
            deeper(prefix, b),
            above.push(key),
            0,
        )
    }
}

/// The lines of the dependencies from `i` on.
pub open spec fn below(
    cfg: ConfigView,
    marks: Seq<Markers>,
    deps: Seq<Seq<char>>,
    prefix: Seq<char>,
    above: Seq<Seq<char>>,
    i: int,
) -> Seq<LineView>
    decreases cfg.tasks.len() - above.len(), deps.len() - i + 1,
{
    if i < 0 || i >= deps.len() {
        Seq::empty()
    } else {
        let b = branch_at(i, deps.len() as int);
        let here = if config::upstream(deps[i]) is Some {
            seq![upstream_line(deps[i], prefix, b)]
        } else if above.contains(deps[i]) {
            seq![cycle_line(deps[i], prefix, b)]
        } else {
            node(cfg, marks, deps[i], prefix, b, above)
        };
        here + below(cfg, marks, deps, prefix, above, i + 1)
    }
}

fn connector_text(b: Branch) -> (r: &'static str)
    ensures
        r@ == connector(b),
{
    match b {
        Branch::Root => {
            proof {
                reveal_strlit("");
                assert(""@ =~= Seq::empty());
            }
            ""
        },
        Branch::Mid => "├─ ",
        Branch::Last => "└─ ",
    }
}

fn start_line(prefix: &str, b: Branch) -> (r: Line)
    ensures
        r@ == seq![stem(prefix@, b)],
{
    let mut line = Line::empty();
    line.add(text::join3("  ", prefix, connector_text(b)).as_str(), Style::Dim);
    assert(line@ =~= seq![stem(prefix@, b)]);
    line
}

/// A line with a sign and a remark.
fn remark(prefix: &str, b: Branch, sign: &str, key: &str, first: Style, why: &str, second: Style) -> (r:
    Line)
    ensures
        r@ == seq![stem(prefix@, b), (sign@ + key@, first), (why@, second)],
{
    let mut line = start_line(prefix, b);
    line.add(text::join2(sign, key).as_str(), first);
    line.add(why, second);
    assert(line@ =~= seq![stem(prefix@, b), (sign@ + key@, first), (why@, second)]);
    line
}

fn line_of_task(cfg: &Config, task: &Task, markers: &Markers, prefix: &str, b: Branch) -> (r: Line)
    ensures
        r@ == task_line(cfg@, task@, *markers, prefix@, b),
{
    let mut line = start_line(prefix, b);
    line.add(text::join2("● ", task.key.as_str()).as_str(), Style::AccentBold);
    assert(task@.deps.len() == task.deps.len());
    assert(line@ =~= seq![stem(prefix@, b), ("● "@ + task@.key, Style::AccentBold)]);
    if task.deps.len() > 0 {
        if task.parallel {
            line.add("  ⇉ parallel", Style::Yellow);
        } else {
            line.add("  → sequential", Style::Yellow);
        }
    }
    let command = dry_run(cfg, task, markers);
    line.add(text::join2("   ", command.as_str()).as_str(), Style::Gray);
    line
}

/// Put the lines of a task, and of everything it depends on, behind the others.
fn node_lines(
    cfg: &Config,
    marks: &Vec<Markers>,
    key: &str,
    prefix: &str,
    b: Branch,
    above: &Vec<String>,
    out: &mut Vec<Line>,
)
    requires
        marks.len() == cfg.tasks.len(),
    ensures
        line_views(final(out)@) == line_views(old(out)@) + node(
            cfg@,
            marks@,
            key@,
            prefix@,
            b,
            text::texts(above@),
        ),
    decreases cfg.tasks.len() - above.len(),
{
    let ghost start = line_views(out@);
    let ghost up = text::texts(above@);
    assert(up.len() == above.len());
    assert(cfg@.tasks.len() == cfg.tasks.len());
    let p = match cfg.task_index(key) {
        Some(p) => p,
        None => {
            push_line(
                out,
                remark(prefix, b, "● ", key, Style::Red, "  (undefined task)", Style::Red),
            );
            assert(line_views(out@) =~= start + seq![undefined_line(key@, prefix@, b)]);
            return ;
        },
    };
    let task = &cfg.tasks[p];
    assert(cfg@.tasks[p as int] == task@);
    let ghost first = task_line(cfg@, task@, marks@[p as int], prefix@, b);
    push_line(out, line_of_task(cfg, task, &marks[p], prefix, b));
    if above.len() >= cfg.tasks.len() {
        assert(line_views(out@) =~= start + seq![first]);
        return ;
    }
    let next_prefix = match b {
        Branch::Root => String::new(),
        Branch::Mid => text::join2(prefix, "│  "),
        Branch::Last => text::join2(prefix, "   "),
    };
    let mut now = text::copy_strings(above);
    now.push(key.to_string());
    assert(text::texts(now@) =~= up.push(key@));
    let ghost deps = task@.deps;
    let n = task.deps.len();
    let mut i: usize = 0;
    let ghost rest = below(cfg@, marks@, deps, next_prefix@, up.push(key@), 0);
    assert(line_views(out@) + rest =~= start + (seq![first] + rest));
    while i < n
        invariant
            i <= n,
            n == task.deps.len(),
            deps == text::texts(task.deps@),
            deps == task@.deps,
            marks.len() == cfg.tasks.len(),
            above.len() < cfg.tasks.len(),
            now.len() == above.len() + 1,
            text::texts(now@) == up.push(key@),
            cfg@.tasks.len() == cfg.tasks.len(),
            start + (seq![first] + rest) == line_views(out@) + below(
                cfg@,
                marks@,
                deps,
                next_prefix@,
                up.push(key@),
                i as int,
            ),
        decreases n - i,
    {
        let dep = task.deps[i].as_str();
        assert(deps[i as int] == dep@);
        let ghost before = line_views(out@);
        let ghost later = below(cfg@, marks@, deps, next_prefix@, up.push(key@), i + 1);
        let branch = if i + 1 == n {
            Branch::Last
        } else {
            Branch::Mid
        };
        if config::upstream_dep(dep).is_some() {
            let line = remark(
                next_prefix.as_str(),
                branch,
                "▲ ",
                dep,
                Style::Yellow,
                "  (in every package it depends on)",
                Style::Dim,
            );
            let ghost seen = line@;
            push_line(out, line);
            assert(line_views(out@) =~= before + seq![seen]);
            assert(before + (seq![seen] + later) =~= line_views(out@) + later);
        } else if text::member(&now, dep) {
            let line = remark(
                next_prefix.as_str(),
                branch,
                "↺ ",
                dep,
                Style::Red,
                "  (cycle)",
                Style::Red,
            );
            let ghost seen = line@;
            push_line(out, line);
            assert(line_views(out@) =~= before + seq![seen]);
            assert(before + (seq![seen] + later) =~= line_views(out@) + later);
        } else {
            node_lines(cfg, marks, dep, next_prefix.as_str(), branch, &now, out);
            let ghost here = node(cfg@, marks@, dep@, next_prefix@, branch, up.push(key@));
            assert(before + (here + later) =~= line_views(out@) + later);
        }
        i += 1;
    }
    assert(line_views(out@) + Seq::<LineView>::empty() =~= line_views(out@));
}

/// Whether some task depends on this one by name.
pub open spec fn depended_on(tasks: Seq<TaskView>, key: Seq<char>) -> bool {
    exists|i: int| 0 <= i < tasks.len() && (#[trigger] tasks[i]).deps.contains(key)
}

/// Of the first `n` tasks, the keys of those that no task depends on.
pub open spec fn free_keys(tasks: Seq<TaskView>, n: int) -> Seq<Seq<char>>
    decreases n,
{
    if n <= 0 {
        Seq::empty()
    } else if depended_on(tasks, tasks[n - 1].key) {
        free_keys(tasks, n - 1)
    } else {
        free_keys(tasks, n - 1).push(tasks[n - 1].key)
    }
}

/// The roots of the tree: the tasks that nothing depends on; all tasks where a
/// cycle leaves none.
pub open spec fn roots(tasks: Seq<TaskView>) -> Seq<Seq<char>> {
    let free = free_keys(tasks, tasks.len() as int);
    if free.len() == 0 {
        Seq::new(tasks.len(), |i: int| tasks[i].key)
    } else {
        free
    }
}

fn is_depended_on(cfg: &Config, key: &str) -> (r: bool)
    ensures
        r == depended_on(cfg@.tasks, key@),
{
    let ghost tasks = cfg@.tasks;
    let mut i: usize = 0;
    while i < cfg.tasks.len()
        invariant
            i <= cfg.tasks.len(),
            tasks == cfg@.tasks,
            forall|j: int| 0 <= j < i ==> !(#[trigger] tasks[j]).deps.contains(key@),
        decreases cfg.tasks.len() - i,
    {
        assert(tasks[i as int] == cfg.tasks@[i as int]@);
        if text::member(&cfg.tasks[i].deps, key) {
            assert(tasks[i as int].deps.contains(key@));
            return true;
        }
        i += 1;
    }
    false
}

/// The roots of the tree: the tasks that nothing depends on; all tasks where a
/// cycle leaves none.
pub fn root_tasks(cfg: &Config) -> (r: Vec<String>)
    ensures
        text::texts(r@) == roots(cfg@.tasks),
{
    let ghost tasks = cfg@.tasks;
    let mut free: Vec<String> = Vec::new();
    let mut all: Vec<String> = Vec::new();
    let mut i: usize = 0;
    assert(text::texts(free@) =~= Seq::empty());
    while i < cfg.tasks.len()
        invariant
            i <= cfg.tasks.len(),
            tasks == cfg@.tasks,
            text::texts(free@) == free_keys(tasks, i as int),
            all.len() == i,
            forall|j: int| 0 <= j < i ==> (#[trigger] all@[j])@ == tasks[j].key,
        decreases cfg.tasks.len() - i,
    {
        assert(tasks[i as int] == cfg.tasks@[i as int]@);
        let key = &cfg.tasks[i].key;
        if !is_depended_on(cfg, key.as_str()) {
            let ghost before = text::texts(free@);
            free.push(key.clone());
            assert(text::texts(free@) =~= before.push(key@));
        }
        all.push(key.clone());
        i += 1;
    }
    assert(text::texts(free@).len() == free.len());
    if free.len() == 0 {
        assert(text::texts(all@) =~= roots(tasks));
        all
    } else {
        free
    }
}

/// The lines of the roots from `i` on, with an empty line between two of them.
pub open spec fn trees(cfg: ConfigView, marks: Seq<Markers>, keys: Seq<Seq<char>>, i: int) -> Seq<
    LineView,
>
    decreases keys.len() - i,
{
    if i < 0 || i >= keys.len() {
        Seq::empty()
    } else {
        let here = node(cfg, marks, keys[i], Seq::empty(), Branch::Root, Seq::empty());
        if i + 1 < keys.len() {
            here + seq![Seq::empty()] + trees(cfg, marks, keys, i + 1)
        } else {
            here
        }
    }
}

/// The tree of one task, or of all.
pub open spec fn graph_lines(cfg: ConfigView, marks: Seq<Markers>, focus: Option<Seq<char>>) -> Seq<
    LineView,
> {
    let keys = match focus {
        Some(k) => seq![k],
        None => roots(cfg.tasks),
    };
    if keys.len() == 0 {
        seq![seq![("  (no tasks yet — press Esc, then choose \"Add a task\")"@, Style::Dim)]]
    } else {
        seq![Seq::empty()] + trees(cfg, marks, keys, 0)
    }
}

/// The tree of one task, or of all. `marks` are the marker files of each task's
/// directory, in the order of the tasks.
pub fn build_graph_lines(cfg: &Config, focus: Option<&str>, marks: &Vec<Markers>) -> (r: Vec<Line>)
    requires
        marks.len() == cfg.tasks.len(),
    ensures
        line_views(r@) == graph_lines(
            cfg@,
            marks@,
            match focus {
                Some(k) => Some(k@),
                None => None,
            },
        ),
{
    let keys = match focus {
        Some(k) => {
            let mut v: Vec<String> = Vec::new();
            v.push(k.to_string());
            assert(text::texts(v@) =~= seq![k@]);
            v
        },
        None => root_tasks(cfg),
    };
    let ghost all = text::texts(keys@);
    assert(all.len() == keys.len());
    let mut out: Vec<Line> = Vec::new();
    assert(line_views(out@) =~= Seq::empty());
    if keys.len() == 0 {
        let mut line = Line::empty();
        line.add("  (no tasks yet — press Esc, then choose \"Add a task\")", Style::Dim);
        let ghost seen = line@;
        assert(seen =~= seq![
            ("  (no tasks yet — press Esc, then choose \"Add a task\")"@, Style::Dim),
        ]);
        push_line(&mut out, line);
        assert(line_views(out@) =~= seq![seen]);
        return out;
    }
    push_line(&mut out, Line::empty());
    let ghost first: Seq<LineView> = seq![Seq::empty()];
    assert(line_views(out@) =~= first);
    let above: Vec<String> = Vec::new();
    assert(text::texts(above@) =~= Seq::empty());
    let ghost owed = first + trees(cfg@, marks@, all, 0);
    let mut i: usize = 0;
    proof {
        reveal_strlit("");
        assert(""@ =~= Seq::empty());
    }
    while i < keys.len()
        invariant
            i <= keys.len(),
            all == text::texts(keys@),
            marks.len() == cfg.tasks.len(),
            text::texts(above@) == Seq::<Seq<char>>::empty(),
            ""@ == Seq::<char>::empty(),
            owed == line_views(out@) + trees(cfg@, marks@, all, i as int),
        decreases keys.len() - i,
    {
        assert(all[i as int] == keys@[i as int]@);
        let ghost before = line_views(out@);
        node_lines(cfg, marks, keys[i].as_str(), "", Branch::Root, &above, &mut out);
        let ghost here = node(
            cfg@,
            marks@,
            all[i as int],
            Seq::empty(),
            Branch::Root,
            Seq::empty(),
        );
        assert(line_views(out@) == before + here);
        if i + 1 < keys.len() {
            let ghost later = trees(cfg@, marks@, all, i + 1);
            push_line(&mut out, Line::empty());
            assert(before + (here + seq![Seq::empty()] + later) =~= line_views(out@) + later);
        } else {
            assert(trees(cfg@, marks@, all, i + 1) =~= Seq::empty());
            assert(before + here =~= line_views(out@) + trees(cfg@, marks@, all, i + 1));
        }
        i += 1;
    }
    assert(line_views(out@) + Seq::<LineView>::empty() =~= line_views(out@));
    out
}

// ---------------------------------------------------------------------------
// Laws
// ---------------------------------------------------------------------------
/// The tree is drawn to its end: the tasks above a node are as many as there are
/// tasks only if the node is one of them, and then it is marked as a cycle and
/// not drawn again. So no dependency is left out.
pub proof fn law_no_dependency_is_cut(
    tasks: Seq<TaskView>,
    above: Seq<Seq<char>>,
    key: Seq<char>,
)
    requires
        above.no_duplicates(),
        forall|i: int|
            0 <= i < above.len() ==> config::find_task(tasks, #[trigger] above[i]) is Some,
        config::find_task(tasks, key) is Some,
        !above.contains(key),
    ensures
        above.len() < tasks.len(),
        above.push(key).no_duplicates(),
{
    let keys = Seq::new(tasks.len(), |i: int| tasks[i].key);
    let more = above.push(key);
    assert(more.no_duplicates());
    assert forall|k: Seq<char>| more.to_set().contains(k) implies keys.to_set().contains(k) by {
        let i = choose|i: int| 0 <= i < more.len() && more[i] == k;
        if i < above.len() {
            assert(config::find_task(tasks, above[i]) is Some);
        }
        config::lemma_position(tasks, k);
        let p = config::position(tasks, k);
        assert(keys[p] == k);
    }
    more.unique_seq_to_set();
    keys.lemma_cardinality_of_set();
    vstd::set_lib::lemma_len_subset(more.to_set(), keys.to_set());
}

/// A root is never a dependency, unless every task is one.
pub proof fn law_roots_are_free(tasks: Seq<TaskView>, key: Seq<char>)
    ensures
        roots(tasks).contains(key) ==> exists|i: int|
            0 <= i < tasks.len() && (#[trigger] tasks[i]).key == key,
        roots(tasks).contains(key) && (exists|i: int|
            0 <= i < tasks.len() && !depended_on(tasks, (#[trigger] tasks[i]).key))
            ==> !depended_on(tasks, key),
{
    lemma_free_keys(tasks, tasks.len() as int);
    let free = free_keys(tasks, tasks.len() as int);
    if roots(tasks).contains(key) {
        let j = choose|j: int| 0 <= j < roots(tasks).len() && roots(tasks)[j] == key;
        if free.len() == 0 {
            assert(tasks[j].key == key);
        } else {
            assert(free[j] == key);
        }
    }
}

proof fn lemma_free_keys(tasks: Seq<TaskView>, n: int)
    requires
        0 <= n <= tasks.len(),
    ensures
        forall|j: int|
            0 <= j < free_keys(tasks, n).len() ==> !depended_on(
                tasks,
                #[trigger] free_keys(tasks, n)[j],
            ) && exists|i: int| 0 <= i < n && (#[trigger] tasks[i]).key == free_keys(tasks, n)[j],
        forall|i: int|
            0 <= i < n && !depended_on(tasks, (#[trigger] tasks[i]).key) ==> free_keys(
                tasks,
                n,
            ).len() > 0,
    decreases n,
{
    if n > 0 {
        lemma_free_keys(tasks, n - 1);
        let before = free_keys(tasks, n - 1);
        let all = free_keys(tasks, n);
        assert forall|j: int| 0 <= j < all.len() implies !depended_on(tasks, #[trigger] all[j])
            && exists|i: int| 0 <= i < n && (#[trigger] tasks[i]).key == all[j] by {
            if j < before.len() {
                assert(all[j] == before[j]);
                let i = choose|i: int| 0 <= i < n - 1 && (#[trigger] tasks[i]).key == before[j];
                assert(tasks[i].key == all[j]);
            } else {
                assert(tasks[n - 1].key == all[j]);
            }
        }
    }
}

/// The command that a task would run: the program and its arguments, or the `run`
/// string, with the task's own arguments behind it, and the packages that it fans out
/// over. A task that has nothing but dependencies says so.
pub proof fn law_commands_in_words(
    cfg: ConfigView,
    t: TaskView,
    markers: Markers,
    program: Seq<char>,
    args: Seq<Seq<char>>,
)
    ensures
        t.run is None && t.delegate is None && t.packages is None && t.deps.len() > 0
            ==> command_text(cfg, t, markers) == "runs its deps only"@,
        t.delegate is None && t.run is Some && t.args.len() == 0 && t.packages is None
            ==> command_text(cfg, t, markers) == "→ "@ + t.run->0,
        t.delegate is None && t.run is Some && t.args.len() > 0 && t.packages is None
            ==> command_text(cfg, t, markers) == "→ "@ + t.run->0 + " "@ + text::joined(t.args, " "@),
        t.delegate == Some(config::DelegateView::Full { bin: program, args }) && t.args.len() == 0
            && t.packages is None ==> command_text(cfg, t, markers) == "→ "@ + text::joined(
            seq![program] + args,
            " "@,
        ),
        t.packages is Some && t.packages->0.len() > 0 ==> command_text(cfg, t, markers)
            == command_text(
            cfg,
            TaskView { packages: None, deps: Seq::empty(), ..t },
            markers,
        ) + "   × packages ["@ + text::joined(t.packages->0, ", "@) + "]"@,
{
    let alone = TaskView { packages: None, deps: Seq::empty(), ..t };
    assert(env::base_dir(cfg.root, alone) == env::base_dir(cfg.root, t));
    assert(base_command(alone, env::base_dir(cfg.root, t), markers) == base_command(
        t,
        env::base_dir(cfg.root, t),
        markers,
    ));
}

proof fn lemma_free_is_filter(tasks: Seq<TaskView>, n: int, key: Seq<char>)
    requires
        0 <= n <= tasks.len(),
    ensures
        free_keys(tasks, n).contains(key) <==> exists|i: int|
            0 <= i < n && (#[trigger] tasks[i]).key == key && !depended_on(tasks, key),
    decreases n,
{
    if n > 0 {
        lemma_free_is_filter(tasks, n - 1, key);
        let before = free_keys(tasks, n - 1);
        let all = free_keys(tasks, n);
        if before.contains(key) {
            let j = choose|j: int| 0 <= j < before.len() && before[j] == key;
            assert(all[j] == key);
        }
        if all.contains(key) {
            let j = choose|j: int| 0 <= j < all.len() && all[j] == key;
            if j < before.len() {
                assert(before[j] == key);
            } else {
                assert(tasks[n - 1].key == key);
            }
        }
        if tasks[n - 1].key == key && !depended_on(tasks, key) {
            assert(all[all.len() - 1] == key);
        }
    }
}

/// The tree has a root for every task that no task depends on; where there is none, every
/// task is a root. So every task that is free is drawn.
pub proof fn law_free_tasks_are_roots(tasks: Seq<TaskView>, i: int)
    requires
        0 <= i < tasks.len(),
    ensures
        (forall|j: int|
            0 <= j < tasks.len() ==> !(#[trigger] tasks[j]).deps.contains(tasks[i].key)) ==> roots(
            tasks,
        ).contains(tasks[i].key),
        (forall|k: int| 0 <= k < tasks.len() ==> depended_on(tasks, (#[trigger] tasks[k]).key))
            ==> roots(tasks).contains(tasks[i].key),
{
    let n = tasks.len() as int;
    lemma_free_is_filter(tasks, n, tasks[i].key);
    let free = free_keys(tasks, n);
    if forall|j: int| 0 <= j < tasks.len() ==> !(#[trigger] tasks[j]).deps.contains(tasks[i].key) {
        assert(!depended_on(tasks, tasks[i].key));
        assert(free.contains(tasks[i].key));
    }
    if forall|k: int| 0 <= k < tasks.len() ==> depended_on(tasks, (#[trigger] tasks[k]).key) {
        lemma_free_keys(tasks, n);
        if free.len() > 0 {
            assert(!depended_on(tasks, free[0]));
            let k = choose|k: int| 0 <= k < n && (#[trigger] tasks[k]).key == free[0];
            assert(depended_on(tasks, tasks[k].key));
        }
        assert(roots(tasks)[i] == tasks[i].key);
    }
}

/// What is drawn below a task: one branch for each dependency, in their order, the last
/// one with the corner. A `^` dependency, one that leads back and one that no task has
/// are marked and end there; any other goes on with its own.
pub proof fn law_branches(
    cfg: ConfigView,
    marks: Seq<Markers>,
    deps: Seq<Seq<char>>,
    prefix: Seq<char>,
    above: Seq<Seq<char>>,
    i: int,
)
    requires
        0 <= i < deps.len(),
    ensures
        ({
            let last = i + 1 == deps.len();
            let start = ("  "@ + prefix + (if last {
                "└─ "@
            } else {
                "├─ "@
            }), Style::Dim);
            let rest = below(cfg, marks, deps, prefix, above, i + 1);
            let all = below(cfg, marks, deps, prefix, above, i);
            let dep = deps[i];
            let marked = dep.len() > 0 && dep[0] == '^';
            &&& last ==> rest.len() == 0
            &&& marked ==> all == seq![
                seq![
                    start,
                    ("▲ "@ + dep, Style::Yellow),
                    ("  (in every package it depends on)"@, Style::Dim),
                ],
            ] + rest
            &&& !marked && above.contains(dep) ==> all == seq![
                seq![start, ("↺ "@ + dep, Style::Red), ("  (cycle)"@, Style::Red)],
            ] + rest
            &&& !marked && !above.contains(dep) && config::find_task(cfg.tasks, dep) is None ==> all
                == seq![
                seq![start, ("● "@ + dep, Style::Red), ("  (undefined task)"@, Style::Red)],
            ] + rest
            &&& !marked && !above.contains(dep) && config::find_task(cfg.tasks, dep) is Some
                && above.len() < cfg.tasks.len() ==> {
                let t = config::find_task(cfg.tasks, dep)->0;
                let line = all[0];
                &&& line[0] == start
                &&& line[1] == ("● "@ + t.key, Style::AccentBold)
                &&& t.deps.len() > 0 && t.parallel ==> line[2] == ("  ⇉ parallel"@, Style::Yellow)
                &&& t.deps.len() > 0 && !t.parallel ==> line[2] == (
                    "  → sequential"@,
                    Style::Yellow,
                )
                &&& t.deps.len() == 0 ==> line.len() == 3
                &&& all == seq![line] + below(
                    cfg,
                    marks,
                    t.deps,
                    prefix + (if last {
                        "   "@
                    } else {
                        "│  "@
                    }),
                    above.push(dep),
                    0,
                ) + rest
            }
        }),
{
    config::law_dependencies(deps[i], true, deps[i]);
    config::lemma_position(cfg.tasks, deps[i]);
    let dep = deps[i];
    let marked = dep.len() > 0 && dep[0] == '^';
    let b = branch_at(i, deps.len() as int);
    let rest = below(cfg, marks, deps, prefix, above, i + 1);
    let all = below(cfg, marks, deps, prefix, above, i);
    reveal_with_fuel(node, 2);
    if marked {
        assert(config::upstream(dep) is Some);
    } else if !above.contains(dep) {
        let p = config::position(cfg.tasks, dep);
        let here = node(cfg, marks, dep, prefix, b, above);
        assert(all == here + rest);
        if p < cfg.tasks.len() && above.len() < cfg.tasks.len() {
            let t = cfg.tasks[p];
            let line = task_line(cfg, t, marks[p], prefix, b);
            let more = below(cfg, marks, t.deps, deeper(prefix, b), above.push(dep), 0);
            assert(here == seq![line] + more);
            assert(all[0] == line);
            assert(line[0] == stem(prefix, b));
            assert(all =~= seq![line] + more + rest);
        }
    }
}

} // verus!
