//! The task dependency graph: before anything runs, every referenced task must
//! exist, and no task may wait for itself.
//!
//! A task waits for its ordinary dependencies. A `^task` dependency runs along
//! the package graph, which has no cycles, so a task may name itself there; but in
//! each package the named task waits for its own ordinary dependencies in turn.

use vstd::prelude::*;

use crate::config;
use crate::config::{Config, TaskView};
use crate::error::{ErrorView, TsrError};
use crate::text;

verus! {

/// The dependency cycle that comes back to `key`.
pub open spec fn cycle_error(stack: Seq<Seq<char>>, key: Seq<char>) -> ErrorView {
    ErrorView::Config("dependency cycle: "@ + text::joined(stack.push(key), " → "@))
}

/// A dependency that names no task.
pub open spec fn unknown_error(key: Seq<char>) -> ErrorView {
    ErrorView::Config("task depends on unknown task '"@ + key + "'"@)
}

/// The task that a dependency names, with or without the `^` marker.
pub open spec fn target(dep: Seq<char>) -> Seq<char> {
    match config::upstream(dep) {
        Some(name) => name,
        None => dep,
    }
}

/// The tasks that the first `n` tasks depend on.
pub open spec fn targets(tasks: Seq<TaskView>, n: int) -> Seq<Seq<char>>
    decreases n,
{
    if n <= 0 {
        Seq::empty()
    } else {
        targets(tasks, n - 1) + Seq::new(
            tasks[n - 1].deps.len(),
            |i: int| target(tasks[n - 1].deps[i]),
        )
    }
}

/// The dependencies of a task: none, if it is not defined.
pub open spec fn deps_of(tasks: Seq<TaskView>, key: Seq<char>) -> Seq<Seq<char>> {
    match config::find_task(tasks, key) {
        Some(t) => t.deps,
        None => Seq::empty(),
    }
}

/// `found`, and behind it the tasks that the first `n` dependencies name with
/// `^`, each once.
pub open spec fn with_upstream(
    found: Seq<Seq<char>>,
    deps: Seq<Seq<char>>,
    n: int,
) -> Seq<Seq<char>>
    decreases n,
{
    if n <= 0 {
        found
    } else {
        let before = with_upstream(found, deps, n - 1);
        match config::upstream(deps[n - 1]) {
            Some(name) => if before.contains(name) {
                before
            } else {
                before.push(name)
            },
            None => before,
        }
    }
}

/// `found`, and behind it what its tasks from `at` on name with `^`, directly or
/// not.
pub open spec fn upstream_from(
    tasks: Seq<TaskView>,
    found: Seq<Seq<char>>,
    at: int,
) -> Seq<Seq<char>>
    decreases targets(tasks, tasks.len() as int).len() + 1 - at,
{
    if at < 0 || at >= found.len() || at > targets(tasks, tasks.len() as int).len() {
        found
    } else {
        let deps = deps_of(tasks, found[at]);
        upstream_from(tasks, with_upstream(found, deps, deps.len() as int), at + 1)
    }
}

/// A task, and what it names with `^`, directly or not.
pub open spec fn upstream_of(tasks: Seq<TaskView>, key: Seq<char>) -> Seq<Seq<char>> {
    upstream_from(tasks, seq![key], 0)
}

/// The first of the keys from `from` on that names no task.
pub open spec fn first_undefined(
    tasks: Seq<TaskView>,
    keys: Seq<Seq<char>>,
    from: int,
) -> Option<Seq<char>>
    decreases keys.len() - from,
{
    if from < 0 || from >= keys.len() {
        None
    } else if config::find_task(tasks, keys[from]) is None {
        Some(keys[from])
    } else {
        first_undefined(tasks, keys, from + 1)
    }
}

/// The ordinary ones among the first `n` dependencies.
pub open spec fn ordinary(deps: Seq<Seq<char>>, n: int) -> Seq<Seq<char>>
    decreases n,
{
    if n <= 0 {
        Seq::empty()
    } else if config::upstream(deps[n - 1]) is None {
        ordinary(deps, n - 1).push(deps[n - 1])
    } else {
        ordinary(deps, n - 1)
    }
}

/// The ordinary dependencies of the first `n` keys.
pub open spec fn awaited(tasks: Seq<TaskView>, keys: Seq<Seq<char>>, n: int) -> Seq<Seq<char>>
    decreases n,
{
    if n <= 0 {
        Seq::empty()
    } else {
        let deps = deps_of(tasks, keys[n - 1]);
        awaited(tasks, keys, n - 1) + ordinary(deps, deps.len() as int)
    }
}

/// Visit a task below those on the `stack`, then add it to the visited ones.
pub open spec fn visit(
    tasks: Seq<TaskView>,
    key: Seq<char>,
    stack: Seq<Seq<char>>,
    visited: Seq<Seq<char>>,
) -> Result<Seq<Seq<char>>, ErrorView>
    decreases tasks.len() + 1 - stack.len(), 0nat,
{
    if stack.contains(key) {
        Err(cycle_error(stack, key))
    } else if visited.contains(key) {
        Ok(visited)
    } else if config::find_task(tasks, key) is None {
        Err(unknown_error(key))
    } else if stack.len() > tasks.len() {
        Ok(visited)
    } else {
        let keys = upstream_of(tasks, key);
        match first_undefined(tasks, keys, 0) {
            Some(name) => Err(unknown_error(name)),
            None => match visit_all(
                tasks,
                awaited(tasks, keys, keys.len() as int),
                0,
                stack.push(key),
                visited,
            ) {
                Err(e) => Err(e),
                Ok(v) => Ok(v.push(key)),
            },
        }
    }
}

/// Visit the keys from `from` on, one after the other.
pub open spec fn visit_all(
    tasks: Seq<TaskView>,
    keys: Seq<Seq<char>>,
    from: int,
    stack: Seq<Seq<char>>,
    visited: Seq<Seq<char>>,
) -> Result<Seq<Seq<char>>, ErrorView>
    decreases tasks.len() + 1 - stack.len(), keys.len() - from + 1,
{
    if from < 0 || from >= keys.len() {
        Ok(visited)
    } else {
        match visit(tasks, keys[from], stack, visited) {
            Err(e) => Err(e),
            Ok(v) => visit_all(tasks, keys, from + 1, stack, v),
        }
    }
}

/// What is wrong with the graph below `root`.
pub open spec fn graph_error(tasks: Seq<TaskView>, root: Seq<char>) -> Option<ErrorView> {
    if config::find_task(tasks, root) is None {
        Some(ErrorView::Runtime("unknown task '"@ + root + "'"@))
    } else {
        match visit(tasks, root, Seq::empty(), Seq::empty()) {
            Err(e) => Some(e),
            Ok(_) => None,
        }
    }
}

proof fn lemma_targets(tasks: Seq<TaskView>, n: int, t: int, d: int)
    requires
        0 <= t < n <= tasks.len(),
        0 <= d < tasks[t].deps.len(),
    ensures
        targets(tasks, n).contains(target(tasks[t].deps[d])),
    decreases n,
{
    let front = targets(tasks, n - 1);
    let back = Seq::new(tasks[n - 1].deps.len(), |i: int| target(tasks[n - 1].deps[i]));
    if t == n - 1 {
        assert((front + back)[front.len() + d] == target(tasks[t].deps[d]));
    } else {
        lemma_targets(tasks, n - 1, t, d);
        let i = choose|i: int| 0 <= i < front.len() && front[i] == target(tasks[t].deps[d]);
        assert((front + back)[i] == front[i]);
    }
}

/// Different texts out of `all` are no more than `all`.
proof fn lemma_distinct_bounded(v: Seq<Seq<char>>, all: Seq<Seq<char>>)
    requires
        v.no_duplicates(),
        forall|i: int| 0 <= i < v.len() ==> all.contains(#[trigger] v[i]),
    ensures
        v.len() <= all.len(),
{
    assert forall|k: Seq<char>| v.to_set().contains(k) implies all.to_set().contains(k) by {
        let i = choose|i: int| 0 <= i < v.len() && v[i] == k;
        assert(all.contains(v[i]));
    }
    v.unique_seq_to_set();
    all.lemma_cardinality_of_set();
    vstd::set_lib::lemma_len_subset(v.to_set(), all.to_set());
}

/// Every task below `root` is among these.
spec fn named_below(tasks: Seq<TaskView>, root: Seq<char>) -> Seq<Seq<char>> {
    targets(tasks, tasks.len() as int).push(root)
}

proof fn lemma_dep_is_named(tasks: Seq<TaskView>, root: Seq<char>, key: Seq<char>, d: int)
    requires
        0 <= d < deps_of(tasks, key).len(),
    ensures
        named_below(tasks, root).contains(target(deps_of(tasks, key)[d])),
{
    config::lemma_position(tasks, key);
    let p = config::position(tasks, key);
    lemma_targets(tasks, tasks.len() as int, p, d);
    let ts = targets(tasks, tasks.len() as int);
    let k = choose|k: int| 0 <= k < ts.len() && ts[k] == target(deps_of(tasks, key)[d]);
    assert(named_below(tasks, root)[k] == ts[k]);
}

/// Different keys, each of them a task below `root`.
spec fn found_ok(tasks: Seq<TaskView>, root: Seq<char>, found: Seq<Seq<char>>) -> bool {
    &&& found.no_duplicates()
    &&& forall|i: int|
        0 <= i < found.len() ==> named_below(tasks, root).contains(#[trigger] found[i])
}

proof fn lemma_with_upstream(
    tasks: Seq<TaskView>,
    root: Seq<char>,
    found: Seq<Seq<char>>,
    key: Seq<char>,
    n: int,
)
    requires
        found_ok(tasks, root, found),
        0 <= n <= deps_of(tasks, key).len(),
    ensures
        ({
            let deps = deps_of(tasks, key);
            let r = with_upstream(found, deps, n);
            &&& found_ok(tasks, root, r)
            &&& found.len() <= r.len()
            &&& forall|i: int| 0 <= i < found.len() ==> #[trigger] r[i] == found[i]
            &&& forall|i: int|
                found.len() <= i < r.len() ==> up_edge(tasks, key, #[trigger] r[i])
            &&& forall|d: int, b: Seq<char>|
                0 <= d < n && #[trigger] config::upstream(deps[d]) == Some(b) ==> #[trigger] r.contains(b)
        }),
    decreases n,
{
    let deps = deps_of(tasks, key);
    if n > 0 {
        lemma_with_upstream(tasks, root, found, key, n - 1);
        let before = with_upstream(found, deps, n - 1);
        let r = with_upstream(found, deps, n);
        if let Some(name) = config::upstream(deps[n - 1]) {
            lemma_dep_is_named(tasks, root, key, n - 1);
            assert(up_edge(tasks, key, name));
            if !before.contains(name) {
                assert(r == before.push(name));
                assert(r[before.len() as int] == name);
                assert forall|i: int| 0 <= i < r.len() implies named_below(tasks, root).contains(
                    #[trigger] r[i],
                ) by {
                    if i < before.len() {
                        assert(named_below(tasks, root).contains(before[i]));
                    }
                }
                assert forall|i: int| found.len() <= i < r.len() implies up_edge(
                    tasks,
                    key,
                    #[trigger] r[i],
                ) by {
                    if i < before.len() {
                        assert(up_edge(tasks, key, before[i]));
                    }
                }
                assert forall|i: int| 0 <= i < found.len() implies #[trigger] r[i] == found[i] by {
                    assert(before[i] == found[i]);
                }
            }
            assert forall|d: int, b: Seq<char>|
                0 <= d < n && #[trigger] config::upstream(deps[d]) == Some(
                    b,
                ) implies #[trigger] r.contains(b) by {
                if d < n - 1 {
                    assert(before.contains(b));
                    let k = choose|k: int| 0 <= k < before.len() && before[k] == b;
                    assert(r[k] == b);
                }
            }
        }
    }
}

proof fn lemma_upstream_from(
    tasks: Seq<TaskView>,
    root: Seq<char>,
    found: Seq<Seq<char>>,
    at: int,
)
    requires
        found_ok(tasks, root, found),
        0 <= at <= found.len(),
        forall|i: int| 0 <= i < found.len() ==> up_reaches(tasks, root, #[trigger] found[i]),
        forall|i: int, b: Seq<char>|
            0 <= i < at && #[trigger] up_edge(tasks, found[i], b) ==> found.contains(b),
    ensures
        ({
            let r = upstream_from(tasks, found, at);
            &&& forall|i: int| 0 <= i < r.len() ==> up_reaches(tasks, root, #[trigger] r[i])
            &&& forall|a: Seq<char>, b: Seq<char>|
                r.contains(a) && #[trigger] up_edge(tasks, a, b) ==> r.contains(b)
            &&& found.len() <= r.len()
            &&& forall|i: int| 0 <= i < found.len() ==> #[trigger] r[i] == found[i]
        }),
    decreases found_limit(tasks) + 1 - at,
{
    lemma_distinct_bounded(found, named_below(tasks, root));
    if at < found.len() {
        let key = found[at];
        let deps = deps_of(tasks, key);
        lemma_with_upstream(tasks, root, found, key, deps.len() as int);
        let more = with_upstream(found, deps, deps.len() as int);
        assert forall|i: int| 0 <= i < more.len() implies up_reaches(
            tasks,
            root,
            #[trigger] more[i],
        ) by {
            if i < found.len() {
                assert(more[i] == found[i]);
            } else {
                assert(up_edge(tasks, key, more[i]));
                lemma_up_way_extends(tasks, root, key, more[i]);
            }
        }
        assert forall|i: int, b: Seq<char>|
            0 <= i < at + 1 && #[trigger] up_edge(tasks, more[i], b) implies more.contains(b) by {
            assert(more[i] == found[i]);
            if i < at {
                assert(up_edge(tasks, found[i], b));
                let k = choose|k: int| 0 <= k < found.len() && found[k] == b;
                assert(more[k] == b);
            } else {
                let d = choose|d: int|
                    0 <= d < deps.len() && config::upstream(#[trigger] deps[d]) == Some(b);
                assert(config::upstream(deps[d]) == Some(b));
                assert(more.contains(b));
            }
        }
        lemma_upstream_from(tasks, root, more, at + 1);
        let r = upstream_from(tasks, found, at);
        assert forall|i: int| 0 <= i < found.len() implies #[trigger] r[i] == found[i] by {
            assert(more[i] == found[i]);
            assert(r[i] == more[i]);
        }
    } else {
        assert forall|a: Seq<char>, b: Seq<char>|
            found.contains(a) && #[trigger] up_edge(tasks, a, b) implies found.contains(b) by {
            let i = choose|i: int| 0 <= i < found.len() && found[i] == a;
            assert(up_edge(tasks, found[i], b));
        }
    }
}

/// How far [`upstream_from`] goes.
spec fn found_limit(tasks: Seq<TaskView>) -> int {
    targets(tasks, tasks.len() as int).len() as int
}

/// [`upstream_of`] holds what a task reaches over `^` dependencies, and nothing
/// else.
proof fn lemma_upstream_of(tasks: Seq<TaskView>, key: Seq<char>)
    ensures
        forall|n: Seq<char>|
            upstream_of(tasks, key).contains(n) <==> #[trigger] up_reaches(tasks, key, n),
{
    let none = seq![key];
    let all = named_below(tasks, key);
    assert(all[all.len() - 1] == key);
    assert(found_ok(tasks, key, none));
    assert(is_up_way(tasks, none) && none[0] == key && none.last() == key);
    lemma_upstream_from(tasks, key, none, 0);
    let r = upstream_of(tasks, key);
    assert(r[0] == none[0]);
    assert forall|n: Seq<char>| r.contains(n) <==> #[trigger] up_reaches(tasks, key, n) by {
        if r.contains(n) {
            let i = choose|i: int| 0 <= i < r.len() && r[i] == n;
            assert(up_reaches(tasks, key, r[i]));
        }
        if up_reaches(tasks, key, n) {
            let way = choose|way: Seq<Seq<char>>| #[trigger]
                is_up_way(tasks, way) && way[0] == key && way.last() == n;
            lemma_closed_holds_upstream(tasks, r, way, way.len() - 1);
        }
    }
}

proof fn lemma_closed_holds_upstream(
    tasks: Seq<TaskView>,
    closed: Seq<Seq<char>>,
    way: Seq<Seq<char>>,
    n: int,
)
    requires
        is_up_way(tasks, way),
        closed.contains(way[0]),
        forall|a: Seq<char>, b: Seq<char>|
            closed.contains(a) && #[trigger] up_edge(tasks, a, b) ==> closed.contains(b),
        0 <= n < way.len(),
    ensures
        closed.contains(way[n]),
    decreases n,
{
    if n > 0 {
        lemma_closed_holds_upstream(tasks, closed, way, n - 1);
        assert(up_edge(tasks, way[n - 1], way[n - 1 + 1]));
    }
}

pub proof fn lemma_up_way_extends(tasks: Seq<TaskView>, root: Seq<char>, a: Seq<char>, b: Seq<char>)
    requires
        up_reaches(tasks, root, a),
        up_edge(tasks, a, b),
    ensures
        up_reaches(tasks, root, b),
{
    let way = choose|way: Seq<Seq<char>>| #[trigger]
        is_up_way(tasks, way) && way[0] == root && way.last() == a;
    let longer = way.push(b);
    assert forall|i: int| 0 <= i < longer.len() - 1 implies #[trigger] up_edge(
        tasks,
        longer[i],
        longer[i + 1],
    ) by {
        if i < way.len() - 1 {
            assert(up_edge(tasks, way[i], way[i + 1]));
        }
    }
    assert(is_up_way(tasks, longer));
    assert(longer.last() == b);
}

/// A task, and what it names with `^`, directly or not: see [`upstream_of`].
fn upstream_keys(cfg: &Config, key: &str) -> (r: Vec<String>)
    ensures
        text::texts(r@) == upstream_of(cfg@.tasks, key@),
{
    let ghost tasks = cfg@.tasks;
    let mut found: Vec<String> = Vec::new();
    found.push(key.to_string());
    let mut at: usize = 0;
    proof {
        assert(text::texts(found@) =~= seq![key@]);
        let all = named_below(tasks, key@);
        assert(all[all.len() - 1] == key@);
        assert(found_ok(tasks, key@, seq![key@]));
        lemma_distinct_bounded(seq![key@], all);
    }
    while at < found.len()
        invariant
            tasks == cfg@.tasks,
            at <= found.len(),
            found.len() <= found_limit(tasks) + 1,
            found_ok(tasks, key@, text::texts(found@)),
            upstream_from(tasks, text::texts(found@), at as int) == upstream_of(tasks, key@),
        decreases found_limit(tasks) + 1 - at,
    {
        let ghost here = text::texts(found@);
        let name = found[at].clone();
        assert(here[at as int] == name@);
        let ghost deps = deps_of(tasks, name@);
        if let Some(task) = cfg.task(name.as_str()) {
            let mut i: usize = 0;
            while i < task.deps.len()
                invariant
                    i <= task.deps.len(),
                    deps == text::texts(task.deps@),
                    text::texts(found@) == with_upstream(here, deps, i as int),
                decreases task.deps.len() - i,
            {
                let ghost before = text::texts(found@);
                assert(deps[i as int] == task.deps@[i as int]@);
                if let Some(up) = config::upstream_dep(task.deps[i].as_str()) {
                    if !text::member(&found, up.as_str()) {
                        found.push(up);
                        assert(text::texts(found@) =~= before.push(up@));
                    }
                }
                i += 1;
            }
        }
        proof {
            lemma_with_upstream(tasks, key@, here, name@, deps.len() as int);
            lemma_distinct_bounded(text::texts(found@), named_below(tasks, key@));
            assert(text::texts(found@).len() == found@.len());
        }
        at += 1;
    }
    found
}

/// The ordinary dependencies of some tasks: see [`awaited`].
fn awaited_keys(cfg: &Config, keys: &Vec<String>) -> (r: Vec<String>)
    ensures
        text::texts(r@) == awaited(cfg@.tasks, text::texts(keys@), keys.len() as int),
{
    let mut out: Vec<String> = Vec::new();
    let ghost tasks = cfg@.tasks;
    let ghost ks = text::texts(keys@);
    assert(text::texts(out@) =~= Seq::<Seq<char>>::empty());
    let mut k: usize = 0;
    while k < keys.len()
        invariant
            k <= keys.len(),
            tasks == cfg@.tasks,
            ks == text::texts(keys@),
            text::texts(out@) == awaited(tasks, ks, k as int),
        decreases keys.len() - k,
    {
        assert(ks[k as int] == keys@[k as int]@);
        let ghost deps = deps_of(tasks, ks[k as int]);
        let ghost front = text::texts(out@);
        assert(front =~= front + ordinary(deps, 0));
        if let Some(task) = cfg.task(keys[k].as_str()) {
            let mut i: usize = 0;
            while i < task.deps.len()
                invariant
                    i <= task.deps.len(),
                    deps == text::texts(task.deps@),
                    text::texts(out@) == front + ordinary(deps, i as int),
                decreases task.deps.len() - i,
            {
                let ghost before = text::texts(out@);
                assert(deps[i as int] == task.deps@[i as int]@);
                if config::upstream_dep(task.deps[i].as_str()).is_none() {
                    out.push(task.deps[i].clone());
                    assert(text::texts(out@) =~= before.push(deps[i as int]));
                    assert(text::texts(out@) =~= front + ordinary(deps, i + 1));
                }
                i += 1;
            }
        }
        k += 1;
    }
    out
}

/// The first of the keys that names no task.
fn find_undefined(cfg: &Config, keys: &Vec<String>) -> (r: Option<String>)
    ensures
        first_undefined(cfg@.tasks, text::texts(keys@), 0) == config::opt_text(r),
{
    let mut i: usize = 0;
    while i < keys.len()
        invariant
            i <= keys.len(),
            first_undefined(cfg@.tasks, text::texts(keys@), 0) == first_undefined(
                cfg@.tasks,
                text::texts(keys@),
                i as int,
            ),
        decreases keys.len() - i,
    {
        assert(text::texts(keys@)[i as int] == keys@[i as int]@);
        if cfg.task(keys[i].as_str()).is_none() {
            return Some(keys[i].clone());
        }
        i += 1;
    }
    None
}

/// The keys on the stack are different defined tasks.
spec fn stack_ok(tasks: Seq<TaskView>, stack: Seq<Seq<char>>) -> bool {
    &&& stack.no_duplicates()
    &&& forall|i: int|
        0 <= i < stack.len() ==> config::find_task(tasks, #[trigger] stack[i]) is Some
}

/// Different defined tasks are no more than the tasks.
proof fn lemma_stack_bounded(tasks: Seq<TaskView>, stack: Seq<Seq<char>>)
    requires
        stack_ok(tasks, stack),
    ensures
        stack.len() <= tasks.len(),
{
    let keys = Seq::new(tasks.len(), |i: int| tasks[i].key);
    assert forall|k: Seq<char>| stack.to_set().contains(k) implies keys.to_set().contains(k) by {
        let i = choose|i: int| 0 <= i < stack.len() && stack[i] == k;
        assert(config::find_task(tasks, stack[i]) is Some);
        config::lemma_position(tasks, k);
        let p = config::position(tasks, k);
        assert(keys[p] == k);
    }
    stack.unique_seq_to_set();
    keys.lemma_cardinality_of_set();
    vstd::set_lib::lemma_len_subset(stack.to_set(), keys.to_set());
}

/// Visit a task: see [`visit`].
fn dfs(cfg: &Config, key: &str, stack: &mut Vec<String>, visited: &mut Vec<String>) -> (r: Result<
    (),
    TsrError,
>)
    requires
        stack_ok(cfg@.tasks, text::texts(old(stack)@)),
    ensures
        match r {
            Ok(_) => {
                &&& visit(
                    cfg@.tasks,
                    key@,
                    text::texts(old(stack)@),
                    text::texts(old(visited)@),
                ) == Ok::<Seq<Seq<char>>, ErrorView>(text::texts(final(visited)@))
                &&& text::texts(final(stack)@) == text::texts(old(stack)@)
            },
            Err(e) => visit(
                cfg@.tasks,
                key@,
                text::texts(old(stack)@),
                text::texts(old(visited)@),
            ) == Err::<Seq<Seq<char>>, ErrorView>(e@),
        },
    decreases cfg@.tasks.len() + 1 - old(stack)@.len(), 0nat,
{
    let ghost before = text::texts(stack@);
    let ghost seen = text::texts(visited@);
    if text::member(stack, key) {
        stack.push(key.to_string());
        assert(text::texts(stack@) =~= before.push(key@));
        let path = text::join(stack, " → ");
        return Err(TsrError::Config(text::join2("dependency cycle: ", path.as_str())));
    }
    if text::member(visited, key) {
        return Ok(());
    }
    if cfg.task(key).is_none() {
        return Err(TsrError::Config(text::join3("task depends on unknown task '", key, "'")));
    }
    proof {
        lemma_stack_bounded(cfg@.tasks, before);
    }
    let keys = upstream_keys(cfg, key);
    assert(text::texts(keys@).len() == keys@.len());
    if let Some(name) = find_undefined(cfg, &keys) {
        return Err(
            TsrError::Config(text::join3("task depends on unknown task '", name.as_str(), "'")),
        );
    }
    let deps = awaited_keys(cfg, &keys);
    let ghost ds = text::texts(deps@);
    stack.push(key.to_string());
    proof {
        assert(text::texts(stack@) =~= before.push(key@));
        assert(stack_ok(cfg@.tasks, before.push(key@)));
        lemma_stack_bounded(cfg@.tasks, before.push(key@));
    }
    let mut i: usize = 0;
    while i < deps.len()
        invariant
            i <= deps.len(),
            ds == text::texts(deps@),
            before == text::texts(old(stack)@),
            text::texts(stack@) == before.push(key@),
            stack_ok(cfg@.tasks, before.push(key@)),
            before.len() + 1 <= cfg@.tasks.len(),
            before.len() == old(stack)@.len(),
            visit_all(cfg@.tasks, ds, 0, before.push(key@), seen) == visit_all(
                cfg@.tasks,
                ds,
                i as int,
                before.push(key@),
                text::texts(visited@),
            ),
            !before.contains(key@),
            !seen.contains(key@),
            seen == text::texts(old(visited)@),
            config::find_task(cfg@.tasks, key@) is Some,
            first_undefined(cfg@.tasks, upstream_of(cfg@.tasks, key@), 0) is None,
            ds == awaited(
                cfg@.tasks,
                upstream_of(cfg@.tasks, key@),
                upstream_of(cfg@.tasks, key@).len() as int,
            ),
        decreases deps.len() - i,
    {
        assert(ds[i as int] == deps@[i as int]@);
        assert(text::texts(stack@).len() == stack@.len());
        match dfs(cfg, deps[i].as_str(), stack, visited) {
            Ok(_) => {},
            Err(e) => return Err(e),
        }
        i += 1;
    }
    assert(ds.len() == deps@.len());
    let ghost held = text::texts(stack@);
    stack.pop();
    assert(text::texts(stack@) =~= held.drop_last());
    assert(held.drop_last() =~= before);
    let ghost v = text::texts(visited@);
    visited.push(key.to_string());
    assert(text::texts(visited@) =~= v.push(key@));
    Ok(())
}

/// Whether the graph below `root` can run: every dependency names a defined
/// task, and no task waits for itself.
pub fn validate(cfg: &Config, root: &str) -> (r: Result<(), TsrError>)
    ensures
        match r {
            Ok(_) => graph_error(cfg@.tasks, root@) is None,
            Err(e) => graph_error(cfg@.tasks, root@) == Some(e@),
        },
{
    if cfg.task(root).is_none() {
        return Err(TsrError::Runtime(text::join3("unknown task '", root, "'")));
    }
    let mut stack: Vec<String> = Vec::new();
    let mut visited: Vec<String> = Vec::new();
    assert(text::texts(stack@) =~= Seq::<Seq<char>>::empty());
    assert(text::texts(visited@) =~= Seq::<Seq<char>>::empty());
    dfs(cfg, root, &mut stack, &mut visited)
}

// ---------------------------------------------------------------------------
// Reachability
// ---------------------------------------------------------------------------
/// Whether the task `a` has a dependency that names `b`.
pub open spec fn edge(tasks: Seq<TaskView>, a: Seq<char>, b: Seq<char>) -> bool {
    config::find_task(tasks, a) matches Some(t) && exists|i: int|
        0 <= i < t.deps.len() && target(#[trigger] t.deps[i]) == b
}

/// Whether `way` leads from one task to another along dependencies.
pub open spec fn is_way(tasks: Seq<TaskView>, way: Seq<Seq<char>>) -> bool {
    &&& way.len() > 0
    &&& forall|i: int| 0 <= i < way.len() - 1 ==> #[trigger] edge(tasks, way[i], way[i + 1])
}

/// Whether `key` is `root`, or a dependency of it, direct or not.
pub open spec fn reaches(tasks: Seq<TaskView>, root: Seq<char>, key: Seq<char>) -> bool {
    exists|way: Seq<Seq<char>>| #[trigger]
        is_way(tasks, way) && way[0] == root && way.last() == key
}

proof fn lemma_way_extends(tasks: Seq<TaskView>, root: Seq<char>, a: Seq<char>, b: Seq<char>)
    requires
        reaches(tasks, root, a),
        edge(tasks, a, b),
    ensures
        reaches(tasks, root, b),
{
    let way = choose|way: Seq<Seq<char>>| #[trigger]
        is_way(tasks, way) && way[0] == root && way.last() == a;
    let longer = way.push(b);
    assert forall|i: int| 0 <= i < longer.len() - 1 implies #[trigger] edge(
        tasks,
        longer[i],
        longer[i + 1],
    ) by {
        if i < way.len() - 1 {
            assert(edge(tasks, way[i], way[i + 1]));
        }
    }
    assert(is_way(tasks, longer));
    assert(longer.last() == b);
}

/// What holds `root` and every dependency of what it holds, holds all that
/// `root` reaches.
proof fn lemma_closed_holds_reachable(
    tasks: Seq<TaskView>,
    closed: Seq<Seq<char>>,
    way: Seq<Seq<char>>,
    n: int,
)
    requires
        is_way(tasks, way),
        closed.contains(way[0]),
        forall|a: Seq<char>, b: Seq<char>|
            closed.contains(a) && #[trigger] edge(tasks, a, b) ==> closed.contains(b),
        0 <= n < way.len(),
    ensures
        closed.contains(way[n]),
    decreases n,
{
    if n > 0 {
        lemma_closed_holds_reachable(tasks, closed, way, n - 1);
        assert(edge(tasks, way[n - 1], way[n - 1 + 1]));
    }
}

/// What a walk along dependencies meets, in the order in which it meets it: `seen`
/// is what it has met, and the last of `stack` is where it goes next. The walk is
/// depth-first, and of the dependencies of a task it takes the last one first.
///
/// There is no more to meet than the tasks that are depended on, and the one that
/// the walk starts from.
pub open spec fn walk(
    tasks: Seq<TaskView>,
    seen: Seq<Seq<char>>,
    stack: Seq<Seq<char>>,
) -> Seq<Seq<char>>
    decreases targets(tasks, tasks.len() as int).len() + 1 - seen.len(), stack.len(),
{
    if stack.len() == 0 || seen.len() > targets(tasks, tasks.len() as int).len() {
        seen
    } else if seen.contains(stack.last()) {
        walk(tasks, seen, stack.drop_last())
    } else {
        let deps = deps_of(tasks, stack.last());
        walk(
            tasks,
            seen.push(stack.last()),
            stack.drop_last() + Seq::new(deps.len(), |i: int| target(deps[i])),
        )
    }
}

/// All the keys that `root` reaches through `deps`, itself first and each once, in
/// the order in which a [`walk`] meets them. A `^task` dependency reaches the task
/// it names.
pub fn reachable(cfg: &Config, root: &str) -> (r: Vec<String>)
    ensures
        text::texts(r@) == walk(cfg@.tasks, Seq::empty(), seq![root@]),
        text::texts(r@).no_duplicates(),
        r.len() > 0 && r@[0]@ == root@,
        forall|k: Seq<char>|
            text::texts(r@).contains(k) <==> #[trigger] reaches(cfg@.tasks, root@, k),
{
    let ghost tasks = cfg@.tasks;
    let ghost all = named_below(tasks, root@);
    let mut order: Vec<String> = Vec::new();
    let mut stack: Vec<String> = Vec::new();
    stack.push(root.to_string());
    proof {
        let way = seq![root@];
        assert(is_way(tasks, way) && way[0] == root@ && way.last() == root@);
        assert(all[all.len() - 1] == root@);
        assert(text::texts(stack@) =~= seq![root@]);
        assert(text::texts(order@) =~= Seq::empty());
    }
    while stack.len() > 0
        invariant
            tasks == cfg@.tasks,
            all == named_below(tasks, root@),
            walk(tasks, text::texts(order@), text::texts(stack@)) == walk(
                tasks,
                Seq::empty(),
                seq![root@],
            ),
            text::texts(order@).no_duplicates(),
            order.len() == 0 ==> stack.len() == 1 && stack@[0]@ == root@,
            order.len() > 0 ==> order@[0]@ == root@,
            forall|i: int| 0 <= i < order.len() ==> all.contains(#[trigger] text::texts(order@)[i]),
            forall|i: int| 0 <= i < stack.len() ==> all.contains((#[trigger] stack@[i])@),
            forall|i: int|
                0 <= i < order.len() ==> reaches(
                    tasks,
                    root@,
                    #[trigger] text::texts(order@)[i],
                ),
            forall|i: int|
                0 <= i < stack.len() ==> reaches(tasks, root@, (#[trigger] stack@[i])@),
            // What was found and not visited yet is on the stack.
            forall|a: Seq<char>, b: Seq<char>|
                text::texts(order@).contains(a) && #[trigger] edge(tasks, a, b)
                    ==> text::texts(order@).contains(b) || text::texts(stack@).contains(b),
            order.len() <= all.len(),
        decreases all.len() - order.len(), stack.len(),
    {
        let ghost seen = text::texts(order@);
        let ghost waiting = text::texts(stack@);
        let key = stack.pop().unwrap();
        let ghost rest = text::texts(stack@);
        assert(rest =~= waiting.drop_last());
        assert(key@ == waiting.last());
        if text::member(&order, key.as_str()) {
            proof {
                assert forall|a: Seq<char>, b: Seq<char>|
                    seen.contains(a) && #[trigger] edge(tasks, a, b) implies seen.contains(b)
                    || rest.contains(b) by {
                    if !seen.contains(b) {
                        let i = choose|i: int| 0 <= i < waiting.len() && waiting[i] == b;
                        assert(rest[i] == b);
                    }
                }
            }
            continue;
        }
        order.push(key.clone());
        let ghost now = text::texts(order@);
        proof {
            assert(now =~= seen.push(key@));
            assert forall|i: int| 0 <= i < now.len() implies all.contains(#[trigger] now[i]) by {
                if i < seen.len() {
                    assert(all.contains(seen[i]));
                }
            }
            assert forall|i: int| 0 <= i < now.len() implies reaches(
                tasks,
                root@,
                #[trigger] now[i],
            ) by {
                if i < seen.len() {
                    assert(reaches(tasks, root@, seen[i]));
                }
            }
            lemma_distinct_bounded(now, all);
            assert forall|a: Seq<char>, b: Seq<char>|
                seen.contains(a) && #[trigger] edge(tasks, a, b) implies now.contains(b)
                || rest.contains(b) by {
                if seen.contains(b) {
                    let i = choose|i: int| 0 <= i < seen.len() && seen[i] == b;
                    assert(now[i] == b);
                } else {
                    let i = choose|i: int| 0 <= i < waiting.len() && waiting[i] == b;
                    if i < rest.len() {
                        assert(rest[i] == b);
                    } else {
                        assert(now[seen.len() as int] == b);
                    }
                }
            }
        }
        if let Some(task) = cfg.task(key.as_str()) {
            let ghost deps = task@.deps;
            let mut i: usize = 0;
            assert(rest =~= rest + Seq::new(0, |j: int| target(deps[j])));
            while i < task.deps.len()
                invariant
                    i <= task.deps.len(),
                    deps == text::texts(task.deps@),
                    config::find_task(tasks, key@) == Some(task@),
                    text::texts(stack@) == rest + Seq::new(
                        i as nat,
                        |j: int| target(deps[j]),
                    ),
                    all == named_below(tasks, root@),
                    reaches(tasks, root@, key@),
                    forall|j: int| 0 <= j < stack.len() ==> all.contains((#[trigger] stack@[j])@),
                    forall|j: int|
                        0 <= j < stack.len() ==> reaches(tasks, root@, (#[trigger] stack@[j])@),
                    forall|b: Seq<char>| rest.contains(b) ==> #[trigger] text::texts(
                        stack@,
                    ).contains(b),
                    forall|j: int|
                        0 <= j < i ==> text::texts(stack@).contains(target(#[trigger] deps[j])),
                decreases task.deps.len() - i,
            {
                let ghost before = text::texts(stack@);
                let name = match config::upstream_dep(task.deps[i].as_str()) {
                    Some(name) => name,
                    None => task.deps[i].clone(),
                };
                assert(name@ == target(deps[i as int]));
                stack.push(name);
                proof {
                    let after = text::texts(stack@);
                    assert(after =~= before.push(name@));
                    assert(after =~= rest + Seq::new((i + 1) as nat, |j: int| target(deps[j])));
                    lemma_dep_is_named(tasks, root@, key@, i as int);
                    assert(edge(tasks, key@, name@));
                    lemma_way_extends(tasks, root@, key@, name@);
                    assert forall|b: Seq<char>| rest.contains(b) implies #[trigger] after.contains(
                        b,
                    ) by {
                        assert(before.contains(b));
                        let k = choose|k: int| 0 <= k < before.len() && before[k] == b;
                        assert(after[k] == b);
                    }
                    assert forall|j: int| 0 <= j < i + 1 implies after.contains(
                        target(#[trigger] deps[j]),
                    ) by {
                        if j < i {
                            assert(before.contains(target(deps[j])));
                            let k = choose|k: int|
                                0 <= k < before.len() && before[k] == target(deps[j]);
                            assert(after[k] == target(deps[j]));
                        } else {
                            assert(after[before.len() as int] == name@);
                        }
                    }
                }
                i += 1;
            }
        }
        proof {
            let after = text::texts(stack@);
            let deps = deps_of(tasks, key@);
            assert(after =~= rest + Seq::new(deps.len(), |j: int| target(deps[j])));
            assert forall|a: Seq<char>, b: Seq<char>|
                now.contains(a) && #[trigger] edge(tasks, a, b) implies now.contains(b)
                || after.contains(b) by {
                if seen.contains(a) {
                    assert(now.contains(b) || rest.contains(b));
                } else {
                    assert(a == key@);
                    let t = config::find_task(tasks, a)->0;
                    let d = choose|d: int|
                        0 <= d < t.deps.len() && target(#[trigger] t.deps[d]) == b;
                    assert(after.contains(target(t.deps[d])));
                }
            }
        }
    }
    proof {
        let done = text::texts(order@);
        assert(done[0] == root@);
        assert forall|k: Seq<char>| done.contains(k) <==> #[trigger] reaches(
            tasks,
            root@,
            k,
        ) by {
            if done.contains(k) {
                let i = choose|i: int| 0 <= i < done.len() && done[i] == k;
                assert(reaches(tasks, root@, done[i]));
            }
            if reaches(tasks, root@, k) {
                let way = choose|way: Seq<Seq<char>>| #[trigger]
                    is_way(tasks, way) && way[0] == root@ && way.last() == k;
                lemma_closed_holds_reachable(tasks, done, way, way.len() - 1);
            }
        }
    }
    order
}

// ---------------------------------------------------------------------------
// Laws
// ---------------------------------------------------------------------------
/// Whether `b` is an ordinary dependency of the task `a`.
pub open spec fn needs(tasks: Seq<TaskView>, a: Seq<char>, b: Seq<char>) -> bool {
    config::find_task(tasks, a) matches Some(t) && exists|i: int|
        0 <= i < t.deps.len() && #[trigger] t.deps[i] == b && config::upstream(b) is None
}

/// Whether the task `a` names `b` with `^`.
pub open spec fn up_edge(tasks: Seq<TaskView>, a: Seq<char>, b: Seq<char>) -> bool {
    exists|i: int|
        0 <= i < deps_of(tasks, a).len() && config::upstream(#[trigger] deps_of(tasks, a)[i])
            == Some(b)
}

/// Whether `way` leads from one task to another along `^` dependencies.
pub open spec fn is_up_way(tasks: Seq<TaskView>, way: Seq<Seq<char>>) -> bool {
    &&& way.len() > 0
    &&& forall|i: int| 0 <= i < way.len() - 1 ==> #[trigger] up_edge(tasks, way[i], way[i + 1])
}

/// Whether `b` is `a`, or a task that `a` names with `^`, directly or not.
pub open spec fn up_reaches(tasks: Seq<TaskView>, a: Seq<char>, b: Seq<char>) -> bool {
    exists|way: Seq<Seq<char>>| #[trigger]
        is_up_way(tasks, way) && way[0] == a && way.last() == b
}

/// Whether the task `a` waits until all of `b` has run: `b` is an ordinary
/// dependency of it, or of a task that it runs in other packages first.
pub open spec fn waits(tasks: Seq<TaskView>, a: Seq<char>, b: Seq<char>) -> bool {
    exists|n: Seq<char>| #[trigger] up_reaches(tasks, a, n) && needs(tasks, n, b)
}

/// An order in which tasks can run: each is defined, as is each that it runs in
/// other packages first, and it stands behind everything that it waits for.
pub open spec fn is_order(tasks: Seq<TaskView>, order: Seq<Seq<char>>) -> bool {
    &&& forall|i: int, n: Seq<char>|
        0 <= i < order.len() && #[trigger] up_reaches(tasks, order[i], n) ==> config::find_task(
            tasks,
            n,
        ) is Some
    &&& forall|i: int, b: Seq<char>|
        0 <= i < order.len() && #[trigger] waits(tasks, order[i], b) ==> exists|j: int|
            0 <= j < i && #[trigger] order[j] == b
}

pub proof fn lemma_up_reaches_itself(tasks: Seq<TaskView>, key: Seq<char>)
    ensures
        up_reaches(tasks, key, key),
{
    let way = seq![key];
    assert(is_up_way(tasks, way) && way[0] == key && way.last() == key);
}

proof fn lemma_first_undefined(tasks: Seq<TaskView>, keys: Seq<Seq<char>>, from: int)
    requires
        0 <= from <= keys.len(),
    ensures
        match first_undefined(tasks, keys, from) {
            Some(name) => keys.contains(name) && config::find_task(tasks, name) is None,
            None => forall|i: int|
                from <= i < keys.len() ==> config::find_task(tasks, #[trigger] keys[i]) is Some,
        },
    decreases keys.len() - from,
{
    if from < keys.len() {
        lemma_first_undefined(tasks, keys, from + 1);
    }
}

pub proof fn lemma_ordinary(deps: Seq<Seq<char>>, n: int)
    requires
        0 <= n <= deps.len(),
    ensures
        forall|b: Seq<char>| #[trigger]
            ordinary(deps, n).contains(b) <==> exists|i: int|
                0 <= i < n && #[trigger] deps[i] == b && config::upstream(b) is None,
    decreases n,
{
    if n > 0 {
        lemma_ordinary(deps, n - 1);
        let before = ordinary(deps, n - 1);
        let r = ordinary(deps, n);
        assert forall|b: Seq<char>| #[trigger] r.contains(b) <==> exists|i: int|
            0 <= i < n && #[trigger] deps[i] == b && config::upstream(b) is None by {
            if r.contains(b) {
                let k = choose|k: int| 0 <= k < r.len() && r[k] == b;
                if k < before.len() {
                    assert(before[k] == b);
                    assert(before.contains(b));
                } else {
                    assert(deps[n - 1] == b);
                }
            }
            if exists|i: int| 0 <= i < n && #[trigger] deps[i] == b && config::upstream(b) is None {
                let i = choose|i: int|
                    0 <= i < n && #[trigger] deps[i] == b && config::upstream(b) is None;
                if i < n - 1 {
                    assert(before.contains(b));
                    let k = choose|k: int| 0 <= k < before.len() && before[k] == b;
                    assert(r[k] == b);
                } else {
                    assert(r[before.len() as int] == b);
                }
            }
        }
    }
}

proof fn lemma_awaited(tasks: Seq<TaskView>, keys: Seq<Seq<char>>, n: int)
    requires
        0 <= n <= keys.len(),
    ensures
        forall|b: Seq<char>| #[trigger]
            awaited(tasks, keys, n).contains(b) <==> exists|i: int|
                0 <= i < n && needs(tasks, #[trigger] keys[i], b),
    decreases n,
{
    if n > 0 {
        lemma_awaited(tasks, keys, n - 1);
        let deps = deps_of(tasks, keys[n - 1]);
        lemma_ordinary(deps, deps.len() as int);
        let front = awaited(tasks, keys, n - 1);
        let back = ordinary(deps, deps.len() as int);
        let r = awaited(tasks, keys, n);
        assert forall|b: Seq<char>| #[trigger] r.contains(b) <==> exists|i: int|
            0 <= i < n && needs(tasks, #[trigger] keys[i], b) by {
            if r.contains(b) {
                let k = choose|k: int| 0 <= k < r.len() && r[k] == b;
                if k < front.len() {
                    assert(front[k] == b);
                    assert(front.contains(b));
                } else {
                    assert(back[k - front.len()] == b);
                    assert(back.contains(b));
                    assert(needs(tasks, keys[n - 1], b));
                }
            }
            if exists|i: int| 0 <= i < n && needs(tasks, #[trigger] keys[i], b) {
                let i = choose|i: int| 0 <= i < n && needs(tasks, #[trigger] keys[i], b);
                if i < n - 1 {
                    assert(front.contains(b));
                    let k = choose|k: int| 0 <= k < front.len() && front[k] == b;
                    assert(r[k] == b);
                } else {
                    assert(back.contains(b));
                    let k = choose|k: int| 0 <= k < back.len() && back[k] == b;
                    assert(r[front.len() + k] == b);
                }
            }
        }
    }
}

/// What is visited for a task is what it waits for.
proof fn lemma_awaited_is_waits(tasks: Seq<TaskView>, key: Seq<char>)
    ensures
        ({
            let keys = upstream_of(tasks, key);
            forall|b: Seq<char>| #[trigger]
                awaited(tasks, keys, keys.len() as int).contains(b) <==> waits(tasks, key, b)
        }),
{
    let keys = upstream_of(tasks, key);
    lemma_upstream_of(tasks, key);
    lemma_awaited(tasks, keys, keys.len() as int);
    let r = awaited(tasks, keys, keys.len() as int);
    assert forall|b: Seq<char>| #[trigger] r.contains(b) <==> waits(tasks, key, b) by {
        if r.contains(b) {
            let i = choose|i: int| 0 <= i < keys.len() && needs(tasks, #[trigger] keys[i], b);
            assert(keys.contains(keys[i]));
            assert(up_reaches(tasks, key, keys[i]));
        }
        if waits(tasks, key, b) {
            let n = choose|n: Seq<char>| #[trigger] up_reaches(tasks, key, n) && needs(tasks, n, b);
            assert(keys.contains(n));
            let i = choose|i: int| 0 <= i < keys.len() && keys[i] == n;
            assert(needs(tasks, keys[i], b));
        }
    }
}

proof fn lemma_visit_orders(
    tasks: Seq<TaskView>,
    key: Seq<char>,
    stack: Seq<Seq<char>>,
    visited: Seq<Seq<char>>,
)
    requires
        stack_ok(tasks, stack),
        is_order(tasks, visited),
    ensures
        visit(tasks, key, stack, visited) matches Ok(v) ==> is_order(tasks, v) && v.contains(key)
            && visited.len() <= v.len() && v.take(visited.len() as int) == visited,
    decreases tasks.len() + 1 - stack.len(), 0nat,
{
    if !stack.contains(key) && !visited.contains(key) {
        let keys = upstream_of(tasks, key);
        let deps = awaited(tasks, keys, keys.len() as int);
        lemma_stack_bounded(tasks, stack);
        if config::find_task(tasks, key) is Some && first_undefined(tasks, keys, 0) is None {
            assert(stack_ok(tasks, stack.push(key)));
            lemma_stack_bounded(tasks, stack.push(key));
            lemma_visit_all_orders(tasks, deps, 0, stack.push(key), visited);
            if let Ok(v) = visit_all(tasks, deps, 0, stack.push(key), visited) {
                let r = v.push(key);
                assert(r[v.len() as int] == key);
                assert(r.take(visited.len() as int) =~= v.take(visited.len() as int));
                lemma_upstream_of(tasks, key);
                lemma_first_undefined(tasks, keys, 0);
                lemma_awaited_is_waits(tasks, key);
                assert forall|i: int, n: Seq<char>|
                    0 <= i < r.len() && #[trigger] up_reaches(
                        tasks,
                        r[i],
                        n,
                    ) implies config::find_task(tasks, n) is Some by {
                    if i < v.len() {
                        assert(up_reaches(tasks, v[i], n));
                    } else {
                        assert(keys.contains(n));
                        let k = choose|k: int| 0 <= k < keys.len() && keys[k] == n;
                        assert(config::find_task(tasks, keys[k]) is Some);
                    }
                }
                assert forall|i: int, b: Seq<char>|
                    0 <= i < r.len() && #[trigger] waits(tasks, r[i], b) implies exists|j: int|
                    0 <= j < i && #[trigger] r[j] == b by {
                    if i < v.len() {
                        assert(waits(tasks, v[i], b));
                        let j = choose|j: int| 0 <= j < i && #[trigger] v[j] == b;
                        assert(r[j] == b);
                    } else {
                        assert(deps.contains(b));
                        let d = choose|d: int| 0 <= d < deps.len() && deps[d] == b;
                        assert(v.contains(deps[d]));
                        let j = choose|j: int| 0 <= j < v.len() && v[j] == b;
                        assert(r[j] == b);
                    }
                }
            }
        }
    } else if visited.contains(key) {
        assert(visited.take(visited.len() as int) =~= visited);
    }
}

proof fn lemma_visit_all_orders(
    tasks: Seq<TaskView>,
    keys: Seq<Seq<char>>,
    from: int,
    stack: Seq<Seq<char>>,
    visited: Seq<Seq<char>>,
)
    requires
        stack_ok(tasks, stack),
        is_order(tasks, visited),
        0 <= from <= keys.len(),
    ensures
        visit_all(tasks, keys, from, stack, visited) matches Ok(v) ==> {
            &&& is_order(tasks, v)
            &&& visited.len() <= v.len() && v.take(visited.len() as int) == visited
            &&& forall|i: int| from <= i < keys.len() ==> v.contains(#[trigger] keys[i])
        },
    decreases tasks.len() + 1 - stack.len(), keys.len() - from + 1,
{
    if from >= keys.len() {
        assert(visited.take(visited.len() as int) =~= visited);
    } else {
        lemma_stack_bounded(tasks, stack);
        lemma_visit_orders(tasks, keys[from], stack, visited);
        if let Ok(v) = visit(tasks, keys[from], stack, visited) {
            lemma_visit_all_orders(tasks, keys, from + 1, stack, v);
            if let Ok(w) = visit_all(tasks, keys, from + 1, stack, v) {
                assert(w.take(visited.len() as int) =~= w.take(v.len() as int).take(
                    visited.len() as int,
                ));
                let i = choose|i: int| 0 <= i < v.len() && v[i] == keys[from];
                assert(w.take(v.len() as int)[i] == w[i]);
                assert(w.contains(keys[from]));
            }
        }
    }
}

/// Whether each key on the stack waits for the next.
spec fn is_chain(tasks: Seq<TaskView>, stack: Seq<Seq<char>>) -> bool {
    forall|i: int| 0 <= i < stack.len() - 1 ==> #[trigger] waits(tasks, stack[i], stack[i + 1])
}

/// In an order, what stands further down a chain stands further in front.
proof fn lemma_chain_descends(
    tasks: Seq<TaskView>,
    order: Seq<Seq<char>>,
    chain: Seq<Seq<char>>,
    at: int,
    n: int,
) -> (p: int)
    requires
        is_order(tasks, order),
        is_chain(tasks, chain),
        0 <= n < chain.len(),
        0 <= at < order.len(),
        order[at] == chain[0],
    ensures
        0 <= p <= at,
        order[p] == chain[n],
        n > 0 ==> p < at,
    decreases n,
{
    if n == 0 {
        at
    } else {
        let q = lemma_chain_descends(tasks, order, chain, at, n - 1);
        assert(waits(tasks, chain[n - 1], chain[n - 1 + 1]));
        assert(waits(tasks, order[q], chain[n]));
        choose|j: int| 0 <= j < q && #[trigger] order[j] == chain[n]
    }
}

/// What holds a key that waits for itself in the end is no order.
proof fn lemma_no_order_on_cycle(
    tasks: Seq<TaskView>,
    order: Seq<Seq<char>>,
    chain: Seq<Seq<char>>,
    at: int,
    m: int,
)
    requires
        is_chain(tasks, chain),
        0 <= m < chain.len() - 1,
        chain[m] == chain.last(),
        0 <= at < order.len(),
        order[at] == chain[m],
    ensures
        !is_order(tasks, order),
    decreases at,
{
    if is_order(tasks, order) {
        let part = chain.skip(m);
        assert forall|i: int| 0 <= i < part.len() - 1 implies #[trigger] waits(
            tasks,
            part[i],
            part[i + 1],
        ) by {
            assert(waits(tasks, chain[m + i], chain[m + i + 1]));
        }
        let p = lemma_chain_descends(tasks, order, part, at, part.len() - 1);
        assert(order[p] == chain[m]);
        lemma_no_order_on_cycle(tasks, order, chain, p, m);
    }
}

/// Where the visit of a key fails, nothing that holds the first key of the chain
/// to it is an order.
proof fn lemma_visit_fails(
    tasks: Seq<TaskView>,
    key: Seq<char>,
    stack: Seq<Seq<char>>,
    visited: Seq<Seq<char>>,
    order: Seq<Seq<char>>,
)
    requires
        stack_ok(tasks, stack),
        is_chain(tasks, stack.push(key)),
        order.contains(stack.push(key)[0]),
        visit(tasks, key, stack, visited) is Err,
    ensures
        !is_order(tasks, order),
    decreases tasks.len() + 1 - stack.len(), 0nat,
{
    if is_order(tasks, order) {
        let chain = stack.push(key);
        let at = choose|i: int| 0 <= i < order.len() && order[i] == chain[0];
        let p = lemma_chain_descends(tasks, order, chain, at, chain.len() - 1);
        if stack.contains(key) {
            let m = choose|i: int| 0 <= i < stack.len() && stack[i] == key;
            assert(chain[m] == key);
            lemma_no_order_on_cycle(tasks, order, chain, p, m);
        } else {
            lemma_up_reaches_itself(tasks, key);
            assert(up_reaches(tasks, order[p], key));
            let keys = upstream_of(tasks, key);
            lemma_upstream_of(tasks, key);
            lemma_first_undefined(tasks, keys, 0);
            if let Some(name) = first_undefined(tasks, keys, 0) {
                assert(up_reaches(tasks, order[p], name));
            }
            lemma_stack_bounded(tasks, stack);
            assert(stack_ok(tasks, chain));
            lemma_stack_bounded(tasks, chain);
            lemma_visit_all_fails(tasks, key, 0, stack, visited, order);
        }
    }
}

/// The same for the visit of what a key waits for.
proof fn lemma_visit_all_fails(
    tasks: Seq<TaskView>,
    key: Seq<char>,
    from: int,
    above: Seq<Seq<char>>,
    visited: Seq<Seq<char>>,
    order: Seq<Seq<char>>,
)
    requires
        stack_ok(tasks, above.push(key)),
        is_chain(tasks, above.push(key)),
        order.contains(above.push(key)[0]),
        ({
            let keys = upstream_of(tasks, key);
            let deps = awaited(tasks, keys, keys.len() as int);
            &&& 0 <= from <= deps.len()
            &&& visit_all(tasks, deps, from, above.push(key), visited) is Err
        }),
    ensures
        !is_order(tasks, order),
    decreases
            tasks.len() + 1 - above.push(key).len(),
            awaited(
                tasks,
                upstream_of(tasks, key),
                upstream_of(tasks, key).len() as int,
            ).len() - from + 1,
{
    let stack = above.push(key);
    let keys = upstream_of(tasks, key);
    let deps = awaited(tasks, keys, keys.len() as int);
    if from < deps.len() {
        match visit(tasks, deps[from], stack, visited) {
            Err(e) => {
                let longer = stack.push(deps[from]);
                lemma_awaited_is_waits(tasks, key);
                assert(deps.contains(deps[from]));
                assert(waits(tasks, key, deps[from]));
                assert forall|i: int| 0 <= i < longer.len() - 1 implies #[trigger] waits(
                    tasks,
                    longer[i],
                    longer[i + 1],
                ) by {
                    if i < stack.len() - 1 {
                        assert(waits(tasks, stack[i], stack[i + 1]));
                    }
                }
                assert(longer[0] == stack[0]);
                lemma_stack_bounded(tasks, stack);
                lemma_visit_fails(tasks, deps[from], stack, visited, order);
            },
            Ok(v) => {
                lemma_visit_all_fails(tasks, key, from + 1, above, v, order);
            },
        }
    }
}

/// A graph is accepted exactly when there is an order to run it in: one that
/// holds the root, where every task is defined and stands behind everything it
/// waits for. A dependency that names no task, or a cycle, leaves no such order.
pub proof fn law_accepted_graphs_have_an_order(tasks: Seq<TaskView>, root: Seq<char>)
    ensures
        graph_error(tasks, root) is None <==> exists|order: Seq<Seq<char>>| #[trigger]
            is_order(tasks, order) && order.contains(root),
{
    let none = Seq::<Seq<char>>::empty();
    lemma_visit_orders(tasks, root, none, none);
    if graph_error(tasks, root) is None {
        let v = visit(tasks, root, none, none)->Ok_0;
        assert(is_order(tasks, v) && v.contains(root));
    }
    if exists|order: Seq<Seq<char>>| #[trigger] is_order(tasks, order) && order.contains(root) {
        let order = choose|order: Seq<Seq<char>>| #[trigger]
            is_order(tasks, order) && order.contains(root);
        let i = choose|i: int| 0 <= i < order.len() && order[i] == root;
        lemma_up_reaches_itself(tasks, root);
        assert(up_reaches(tasks, order[i], root));
        if visit(tasks, root, none, none) is Err {
            assert(none.push(root)[0] == root);
            lemma_visit_fails(tasks, root, none, none, order);
        }
    }
}

/// What a task of an order reaches is run by a task of the order in other
/// packages first, if it is none of them itself.
proof fn lemma_order_holds_reachable(
    tasks: Seq<TaskView>,
    order: Seq<Seq<char>>,
    way: Seq<Seq<char>>,
    n: int,
) -> (at: int)
    requires
        is_order(tasks, order),
        is_way(tasks, way),
        order.contains(way[0]),
        0 <= n < way.len(),
    ensures
        0 <= at < order.len(),
        up_reaches(tasks, order[at], way[n]),
    decreases n,
{
    if n == 0 {
        let i = choose|i: int| 0 <= i < order.len() && order[i] == way[0];
        lemma_up_reaches_itself(tasks, way[0]);
        i
    } else {
        let i = lemma_order_holds_reachable(tasks, order, way, n - 1);
        let a = way[n - 1];
        let b = way[n];
        assert(edge(tasks, way[n - 1], way[n - 1 + 1]));
        let t = config::find_task(tasks, a)->0;
        let d = choose|d: int| 0 <= d < t.deps.len() && target(#[trigger] t.deps[d]) == b;
        if config::upstream(t.deps[d]) is Some {
            assert(config::upstream(deps_of(tasks, a)[d]) == Some(b));
            assert(up_edge(tasks, a, b));
            lemma_up_way_extends(tasks, order[i], a, b);
            i
        } else {
            assert(needs(tasks, a, b));
            assert(waits(tasks, order[i], b));
            let j = choose|j: int| 0 <= j < i && #[trigger] order[j] == b;
            lemma_up_reaches_itself(tasks, b);
            j
        }
    }
}

/// In an accepted graph everything that the root reaches, through ordinary and
/// `^` dependencies, is a defined task.
pub proof fn law_accepted_graphs_are_defined(tasks: Seq<TaskView>, root: Seq<char>)
    requires
        graph_error(tasks, root) is None,
    ensures
        forall|k: Seq<char>| #[trigger]
            reaches(tasks, root, k) ==> config::find_task(tasks, k) is Some,
{
    law_accepted_graphs_have_an_order(tasks, root);
    let order = choose|order: Seq<Seq<char>>| #[trigger]
        is_order(tasks, order) && order.contains(root);
    assert forall|k: Seq<char>| #[trigger] reaches(tasks, root, k) implies config::find_task(
        tasks,
        k,
    ) is Some by {
        let way = choose|way: Seq<Seq<char>>| #[trigger]
            is_way(tasks, way) && way[0] == root && way.last() == k;
        let i = lemma_order_holds_reachable(tasks, order, way, way.len() - 1);
        assert(up_reaches(tasks, order[i], k));
    }
}

/// In an accepted graph no task that the root reaches waits for itself, whatever
/// stands between.
pub proof fn law_nothing_waits_for_itself(
    tasks: Seq<TaskView>,
    root: Seq<char>,
    chain: Seq<Seq<char>>,
)
    requires
        graph_error(tasks, root) is None,
        chain.len() > 1,
        forall|i: int|
            0 <= i < chain.len() - 1 ==> #[trigger] waits(tasks, chain[i], chain[i + 1]),
        reaches(tasks, root, chain[0]),
    ensures
        chain[0] != chain.last(),
{
    if chain[0] == chain.last() {
        law_accepted_graphs_have_an_order(tasks, root);
        let order = choose|order: Seq<Seq<char>>| #[trigger]
            is_order(tasks, order) && order.contains(root);
        let way = choose|way: Seq<Seq<char>>| #[trigger]
            is_way(tasks, way) && way[0] == root && way.last() == chain[0];
        let i = lemma_order_holds_reachable(tasks, order, way, way.len() - 1);
        // What the first of the chain waits for, the one that runs it waits for.
        let o = order[i];
        assert(waits(tasks, chain[0int], chain[0int + 1]));
        let n = choose|n: Seq<char>| #[trigger]
            up_reaches(tasks, chain[0], n) && needs(tasks, n, chain[1]);
        lemma_up_reaches_joins(tasks, o, chain[0], n);
        assert(waits(tasks, o, chain[1]));
        let j = choose|j: int| 0 <= j < i && #[trigger] order[j] == chain[1];
        let rest = chain.skip(1).push(chain[1]);
        assert forall|k: int| 0 <= k < rest.len() - 1 implies #[trigger] waits(
            tasks,
            rest[k],
            rest[k + 1],
        ) by {
            if k < rest.len() - 2 {
                assert(waits(tasks, chain[k + 1], chain[k + 1 + 1]));
            } else {
                assert(rest[k] == chain.last());
            }
        }
        assert(rest[0] == rest.last());
        lemma_no_order_on_cycle(tasks, order, rest, j, 0);
    }
}

proof fn lemma_up_reaches_joins(
    tasks: Seq<TaskView>,
    a: Seq<char>,
    b: Seq<char>,
    c: Seq<char>,
)
    requires
        up_reaches(tasks, a, b),
        up_reaches(tasks, b, c),
    ensures
        up_reaches(tasks, a, c),
{
    let first = choose|way: Seq<Seq<char>>| #[trigger]
        is_up_way(tasks, way) && way[0] == a && way.last() == b;
    let second = choose|way: Seq<Seq<char>>| #[trigger]
        is_up_way(tasks, way) && way[0] == b && way.last() == c;
    let way = first + second.skip(1);
    assert forall|i: int| 0 <= i < way.len() - 1 implies #[trigger] up_edge(
        tasks,
        way[i],
        way[i + 1],
    ) by {
        if i < first.len() - 1 {
            assert(up_edge(tasks, first[i], first[i + 1]));
        } else {
            let k = i - (first.len() - 1);
            assert(up_edge(tasks, second[k], second[k + 1]));
            assert(way[i] == second[k]);
            assert(way[i + 1] == second[k + 1]);
        }
    }
    assert(way[0] == a);
    assert(way.last() == c);
    assert(is_up_way(tasks, way));
}

/// A dependency with `^` in front leads to the task behind it, any other to the task of
/// its name.
pub proof fn law_what_a_dependency_leads_to(name: Seq<char>)
    ensures
        target(seq!['^'] + name) == name,
        name.len() == 0 || name[0] != '^' ==> target(name) == name,
{
    config::law_dependencies(name, true, name);
}

/// The dependencies that a task waits for are those without `^`, in their order.
pub proof fn law_plain_dependencies(deps: Seq<Seq<char>>)
    ensures
        ordinary(deps, deps.len() as int) == deps.filter(
            |d: Seq<char>| d.len() == 0 || d[0] != '^',
        ),
{
    lemma_plain(deps, deps.len() as int);
    assert(deps.take(deps.len() as int) =~= deps);
}

proof fn lemma_plain(deps: Seq<Seq<char>>, n: int)
    requires
        0 <= n <= deps.len(),
    ensures
        ordinary(deps, n) == deps.take(n).filter(|d: Seq<char>| d.len() == 0 || d[0] != '^'),
    decreases n,
{
    reveal(Seq::filter);
    if n > 0 {
        lemma_plain(deps, n - 1);
        assert(deps.take(n).drop_last() =~= deps.take(n - 1));
        assert(deps.take(n).last() == deps[n - 1]);
    } else {
        assert(deps.take(0).len() == 0);
    }
}

/// A task needs those that it names without `^`, and reaches those that it names either
/// way.
pub proof fn law_edges(tasks: Seq<TaskView>, i: int, d: int, name: Seq<char>)
    requires
        0 <= i < tasks.len(),
        forall|j: int| 0 <= j < i ==> (#[trigger] tasks[j]).key != tasks[i].key,
        0 <= d < tasks[i].deps.len(),
    ensures
        tasks[i].deps[d] == seq!['^'] + name ==> up_edge(tasks, tasks[i].key, name) && edge(
            tasks,
            tasks[i].key,
            name,
        ),
        tasks[i].deps[d] == name && (name.len() == 0 || name[0] != '^') ==> needs(
            tasks,
            tasks[i].key,
            name,
        ) && edge(tasks, tasks[i].key, name) && waits(tasks, tasks[i].key, name),
{
    config::law_tasks_are_found(tasks, tasks[i].key, i);
    law_what_a_dependency_leads_to(name);
    config::law_dependencies(name, true, name);
    let t = config::find_task(tasks, tasks[i].key)->0;
    assert(t == tasks[i]);
    assert(deps_of(tasks, t.key)[d] == t.deps[d]);
    if tasks[i].deps[d] == name && (name.len() == 0 || name[0] != '^') {
        lemma_up_reaches_itself(tasks, t.key);
        assert(needs(tasks, t.key, name));
    }
    assert(target(t.deps[d]) == name ==> edge(tasks, t.key, name));
}

/// What a task that is refused is told: the name of a task that is not defined, or a
/// cycle, task by task.
pub open spec fn is_reason(tasks: Seq<TaskView>, e: ErrorView) -> bool {
    ||| exists|n: Seq<char>|
        #![trigger config::find_task(tasks, n)]
        config::find_task(tasks, n) is None && e == ErrorView::Config(
            "task depends on unknown task '"@ + n + "'"@,
        )
    ||| exists|cycle: Seq<Seq<char>>|
        #![trigger cycle.last()]
        cycle.len() > 1 && (forall|i: int|
            0 <= i < cycle.len() - 1 ==> #[trigger] waits(tasks, cycle[i], cycle[i + 1]))
            && cycle.drop_last().contains(cycle.last()) && e == ErrorView::Config(
            "dependency cycle: "@ + text::joined(cycle, " → "@),
        )
}

proof fn lemma_visit_reason(
    tasks: Seq<TaskView>,
    key: Seq<char>,
    stack: Seq<Seq<char>>,
    visited: Seq<Seq<char>>,
)
    requires
        is_chain(tasks, stack.push(key)),
    ensures
        visit(tasks, key, stack, visited) matches Err(e) ==> is_reason(tasks, e),
    decreases tasks.len() + 1 - stack.len(), 0nat,
{
    if visit(tasks, key, stack, visited) is Err {
        let chain = stack.push(key);
        if stack.contains(key) {
            assert(chain.drop_last() =~= stack);
            assert(chain.last() == key);
            assert(chain.len() > 1);
        } else if config::find_task(tasks, key) is None {
        } else {
            let keys = upstream_of(tasks, key);
            lemma_first_undefined(tasks, keys, 0);
            if let Some(name) = first_undefined(tasks, keys, 0) {
                assert(config::find_task(tasks, name) is None);
            } else {
                lemma_visit_all_reason(tasks, key, 0, stack, visited);
            }
        }
    }
}

proof fn lemma_visit_all_reason(
    tasks: Seq<TaskView>,
    key: Seq<char>,
    from: int,
    above: Seq<Seq<char>>,
    visited: Seq<Seq<char>>,
)
    requires
        is_chain(tasks, above.push(key)),
        above.len() <= tasks.len(),
        ({
            let keys = upstream_of(tasks, key);
            0 <= from <= awaited(tasks, keys, keys.len() as int).len()
        }),
    ensures
        ({
            let keys = upstream_of(tasks, key);
            visit_all(
                tasks,
                awaited(tasks, keys, keys.len() as int),
                from,
                above.push(key),
                visited,
            ) matches Err(e) ==> is_reason(tasks, e)
        }),
    decreases
            tasks.len() + 1 - above.push(key).len(),
            awaited(
                tasks,
                upstream_of(tasks, key),
                upstream_of(tasks, key).len() as int,
            ).len() - from + 1,
{
    let stack = above.push(key);
    let keys = upstream_of(tasks, key);
    let deps = awaited(tasks, keys, keys.len() as int);
    if from < deps.len() {
        let longer = stack.push(deps[from]);
        lemma_awaited_is_waits(tasks, key);
        assert(deps.contains(deps[from]));
        assert(waits(tasks, key, deps[from]));
        assert forall|i: int| 0 <= i < longer.len() - 1 implies #[trigger] waits(
            tasks,
            longer[i],
            longer[i + 1],
        ) by {
            if i < stack.len() - 1 {
                assert(waits(tasks, stack[i], stack[i + 1]));
            }
        }
        lemma_visit_reason(tasks, deps[from], stack, visited);
        if let Ok(v) = visit(tasks, deps[from], stack, visited) {
            lemma_visit_all_reason(tasks, key, from + 1, above, v);
        }
    }
}

/// A graph that is refused is refused with the reason: the task that is asked for is
/// not defined, or one that is depended on is not, or the tasks of a cycle, in their
/// order and with the first of them again at the end.
pub proof fn law_refused_graphs_name_the_reason(tasks: Seq<TaskView>, root: Seq<char>)
    ensures
        config::find_task(tasks, root) is None ==> graph_error(tasks, root) == Some(
            ErrorView::Runtime("unknown task '"@ + root + "'"@),
        ),
        config::find_task(tasks, root) is Some ==> (graph_error(tasks, root) matches Some(e)
            ==> is_reason(tasks, e)),
{
    let none = Seq::<Seq<char>>::empty();
    assert(is_chain(tasks, none.push(root)));
    lemma_visit_reason(tasks, root, none, none);
}

} // verus!
