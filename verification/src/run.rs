//! What holds of a whole run, whatever order its threads go in.
//!
//! A run is a list of events. Each is a call of the functions of [`crate::exec`]:
//! a unit is asked for or left out ([`crate::exec::Memo`]), takes its next step or
//! comes to an end ([`crate::exec::Unit`]), where a step that is a batch comes to
//! what [`crate::exec::Sequence`] or [`crate::exec::combine`] makes of its items.

use vstd::prelude::*;

use crate::config;
use crate::config::{ConfigView, TaskView};
use crate::exec;
use crate::exec::{Next, Slots, Status, StepView};
use crate::graph;
use crate::pkggraph;
use crate::workspace::PackageView;

verus! {

/// What a run is about.
pub struct Setting {
    pub cfg: ConfigView,
    pub pkgs: Seq<PackageView>,
    /// The packages that are taken as done.
    pub skip: Option<Seq<Seq<char>>>,
    pub no_bail: bool,
    /// The steps of each unit, by the name that it is asked for by.
    pub plan: spec_fn(Seq<char>) -> Seq<StepView>,
}

/// Whether these are the steps of a task of this name, or of a task in a package
/// whose label is this name.
pub open spec fn is_unit(on: Setting, name: Seq<char>, steps: Seq<StepView>) -> bool {
    ||| steps == exec::steps_of_task(on.cfg, name)
    ||| exists|t: TaskView, index: int|
        0 <= index < on.pkgs.len() && name == exec::node_label(t.key, on.pkgs[index].rel) && steps
            == #[trigger] exec::steps_of_node(on.cfg.tasks, t, on.pkgs, index, on.skip)
}

/// Whether the plan gives every unit its steps.
pub open spec fn is_planned(on: Setting) -> bool {
    forall|name: Seq<char>| is_unit(on, name, #[trigger] (on.plan)(name))
}

/// What is known at some point of a run.
pub struct Known {
    /// The units that were asked for.
    pub slots: Slots,
    /// Of each unit that is being run or was: how many steps it has taken, and
    /// what the last one came to.
    pub units: Map<Seq<char>, (int, Status)>,
}

/// Before anything has happened.
pub open spec fn nothing() -> Known {
    Known { slots: Seq::empty(), units: Map::empty() }
}

/// Something that happens in a run.
pub enum Event {
    /// A unit is asked for. Whoever is told that nobody has asked before runs it.
    Ask { unit: Seq<char> },
    /// A unit is left out of a batch that has come to its end.
    LeaveOut { unit: Seq<char> },
    /// A unit takes its next step, which comes to `status`. `items` is what the
    /// items of a batch come to, and `aborted` is whether the run has been given
    /// up.
    Take { unit: Seq<char>, items: Seq<Status>, status: Status, aborted: bool },
    /// A unit comes to an end.
    End { unit: Seq<char>, status: Status, aborted: bool },
}

/// Whether a unit has ended, and passed.
pub open spec fn has_passed(slots: Slots, unit: Seq<char>) -> bool {
    exec::slot(slots, unit) == Some(Some(Status::Passed))
}

/// Whether a batch of units comes to a status: every item that is started has
/// come to an end.
pub open spec fn batch_comes_to(
    on: Setting,
    slots: Slots,
    units: Seq<Seq<char>>,
    parallel: bool,
    items: Seq<Status>,
    status: Status,
) -> bool {
    &&& items.len() == units.len()
    &&& if parallel {
        &&& forall|i: int|
            0 <= i < units.len() ==> exec::slot(slots, #[trigger] units[i]) == Some(Some(items[i]))
        &&& status == exec::combined(items)
    } else {
        &&& forall|i: int|
            0 <= i < units.len() && exec::goes_on(
                exec::sequence_result(items, on.no_bail, i),
                on.no_bail,
            ) ==> exec::slot(slots, #[trigger] units[i]) == Some(Some(items[i]))
        &&& status == exec::sequence_result(items, on.no_bail, items.len() as int)
    }
}

/// The names of a task in some packages.
pub open spec fn labels(
    task: Seq<char>,
    pkgs: Seq<PackageView>,
    nodes: Seq<int>,
) -> Seq<Seq<char>> {
    Seq::new(nodes.len(), |i: int| exec::node_label(task, pkgs[nodes[i]].rel))
}

/// Whether a step can come to a status.
pub open spec fn step_comes_to(
    on: Setting,
    slots: Slots,
    step: StepView,
    items: Seq<Status>,
    status: Status,
) -> bool {
    match step {
        StepView::Deps { keys, parallel } => batch_comes_to(
            on,
            slots,
            keys,
            parallel,
            items,
            status,
        ),
        StepView::Upstream { task, nodes, parallel } => batch_comes_to(
            on,
            slots,
            labels(task, on.pkgs, nodes),
            parallel,
            items,
            status,
        ),
        StepView::Fail(_) => status == Status::Runner,
        StepView::Satisfied | StepView::Nothing => status == Status::Passed,
        StepView::FanOut | StepView::Command => true,
    }
}

/// Whether a unit is being run, and what it does next is `next`.
pub open spec fn is_next(
    on: Setting,
    known: Known,
    unit: Seq<char>,
    aborted: bool,
    next: Next,
) -> bool {
    &&& known.units.contains_key(unit)
    &&& exec::slot(known.slots, unit) == Some(None::<Status>)
    &&& exec::next_step(
        (on.plan)(unit),
        known.units[unit].0,
        known.units[unit].1,
        aborted,
    ) == next
}

/// Whether something can happen, and what is known after it.
pub open spec fn happens(on: Setting, known: Known, event: Event, after: Known) -> bool {
    match event {
        Event::Ask { unit } => after == (Known {
            slots: exec::claimed(known.slots, unit),
            units: if exec::slot(known.slots, unit) is None {
                known.units.insert(unit, (0int, Status::Passed))
            } else {
                known.units
            },
        }),
        Event::LeaveOut { unit } => after == (Known {
            slots: exec::left_out(known.slots, unit),
            ..known
        }),
        Event::Take { unit, items, status, aborted } => {
            let at = known.units[unit].0;
            &&& is_next(on, known, unit, aborted, Next::Perform(at as usize))
            &&& step_comes_to(on, known.slots, (on.plan)(unit)[at], items, status)
            &&& after == (Known { units: known.units.insert(unit, (at + 1, status)), ..known })
        },
        Event::End { unit, status, aborted } => {
            &&& is_next(on, known, unit, aborted, Next::Finish(status))
            &&& after == (Known {
                slots: exec::finished(known.slots, unit, status),
                ..known
            })
        },
    }
}

/// Whether these events can happen one after the other, from the start of a run;
/// `known[i]` is what is known before the one at `i`.
pub open spec fn is_run(on: Setting, events: Seq<Event>, known: Seq<Known>) -> bool {
    &&& is_planned(on)
    &&& known.len() == events.len() + 1
    &&& known[0] == nothing()
    &&& forall|i: int|
        0 <= i < events.len() ==> happens(on, known[i], #[trigger] events[i], known[i + 1])
}

/// Whether the command of a unit is run by the event at `i`.
pub open spec fn runs_command(
    on: Setting,
    events: Seq<Event>,
    known: Seq<Known>,
    i: int,
    unit: Seq<char>,
) -> bool {
    &&& 0 <= i < events.len()
    &&& events[i] matches Event::Take { unit: u, .. } && u == unit
    &&& (on.plan)(unit)[known[i].units[unit].0] is Command
}

/// Whether everything that a step runs has passed.
pub open spec fn has_served(on: Setting, slots: Slots, step: StepView) -> bool {
    match step {
        StepView::Deps { keys, .. } => forall|i: int|
            0 <= i < keys.len() ==> has_passed(slots, #[trigger] keys[i]),
        StepView::Upstream { task, nodes, .. } => forall|i: int|
            0 <= i < nodes.len() ==> has_passed(
                slots,
                exec::node_label(task, on.pkgs[#[trigger] nodes[i]].rel),
            ),
        StepView::Fail(_) => false,
        _ => true,
    }
}

/// What holds of every unit at every point of a run.
spec fn unit_ok(on: Setting, known: Known, unit: Seq<char>) -> bool {
    let (at, status) = known.units[unit];
    &&& exec::slot(known.slots, unit) is Some
    &&& 0 <= at <= (on.plan)(unit).len()
    &&& forall|k: int|
        0 <= k < at && (k < at - 1 || status == Status::Passed) ==> has_served(
            on,
            known.slots,
            #[trigger] (on.plan)(unit)[k],
        )
}

spec fn known_ok(on: Setting, known: Known) -> bool {
    forall|unit: Seq<char>| #[trigger]
        known.units.contains_key(unit) ==> unit_ok(on, known, unit)
}

proof fn lemma_batch_passes(
    on: Setting,
    slots: Slots,
    units: Seq<Seq<char>>,
    parallel: bool,
    items: Seq<Status>,
)
    requires
        batch_comes_to(on, slots, units, parallel, items, Status::Passed),
    ensures
        forall|i: int| 0 <= i < units.len() ==> has_passed(slots, #[trigger] units[i]),
{
    let n = items.len() as int;
    exec::law_parallel_batches(items);
    exec::law_batches_fail_fast(items, on.no_bail, n);
    assert forall|i: int| 0 <= i < units.len() implies has_passed(slots, #[trigger] units[i]) by {
        assert(items[i] == Status::Passed);
        if !parallel {
            exec::law_batches_fail_fast(items, on.no_bail, i);
        }
    }
}

/// What has passed once has passed for good.
proof fn lemma_ends_stay(on: Setting, known: Known, event: Event, after: Known, unit: Seq<char>)
    requires
        happens(on, known, event, after),
    ensures
        exec::slot(known.slots, unit) is Some ==> exec::slot(after.slots, unit) is Some,
        exec::slot(known.slots, unit) matches Some(Some(s)) ==> exec::slot(after.slots, unit)
            == Some(Some(s)),
{
    match event {
        Event::Ask { unit: u } => {
            exec::law_a_unit_runs_once(known.slots, unit, u, Status::Passed);
        },
        Event::LeaveOut { unit: u } => {
            exec::law_a_unit_runs_once(known.slots, unit, u, Status::Skipped);
            exec::law_a_unit_runs_once(
                exec::claimed(known.slots, u),
                unit,
                u,
                Status::Skipped,
            );
        },
        Event::Take { .. } => {},
        Event::End { unit: u, status, .. } => {
            exec::law_a_unit_runs_once(known.slots, unit, u, status);
        },
    }
}

proof fn lemma_served_stays(on: Setting, known: Known, event: Event, after: Known, step: StepView)
    requires
        happens(on, known, event, after),
        has_served(on, known.slots, step),
    ensures
        has_served(on, after.slots, step),
{
    match step {
        StepView::Deps { keys, .. } => {
            assert forall|i: int| 0 <= i < keys.len() implies has_passed(
                after.slots,
                #[trigger] keys[i],
            ) by {
                assert(has_passed(known.slots, keys[i]));
                lemma_ends_stay(on, known, event, after, keys[i]);
            }
        },
        StepView::Upstream { task, nodes, .. } => {
            assert forall|i: int| 0 <= i < nodes.len() implies has_passed(
                after.slots,
                exec::node_label(task, on.pkgs[#[trigger] nodes[i]].rel),
            ) by {
                let label = exec::node_label(task, on.pkgs[nodes[i]].rel);
                assert(has_passed(known.slots, label));
                lemma_ends_stay(on, known, event, after, label);
            }
        },
        _ => {},
    }
}

/// A step that passes has served.
proof fn lemma_step_serves(on: Setting, slots: Slots, step: StepView, items: Seq<Status>)
    requires
        step_comes_to(on, slots, step, items, Status::Passed),
    ensures
        has_served(on, slots, step),
{
    match step {
        StepView::Deps { keys, parallel } => {
            lemma_batch_passes(on, slots, keys, parallel, items);
        },
        StepView::Upstream { task, nodes, parallel } => {
            let units = labels(task, on.pkgs, nodes);
            lemma_batch_passes(on, slots, units, parallel, items);
            assert forall|i: int| 0 <= i < nodes.len() implies has_passed(
                slots,
                exec::node_label(task, on.pkgs[#[trigger] nodes[i]].rel),
            ) by {
                assert(has_passed(slots, units[i]));
            }
        },
        _ => {},
    }
}

proof fn lemma_known_stays_ok(on: Setting, known: Known, event: Event, after: Known)
    requires
        known_ok(on, known),
        happens(on, known, event, after),
    ensures
        known_ok(on, after),
{
    assert forall|unit: Seq<char>| #[trigger] after.units.contains_key(unit) implies unit_ok(
        on,
        after,
        unit,
    ) by {
        lemma_ends_stay(on, known, event, after, unit);
        let steps = (on.plan)(unit);
        let (at, status) = after.units[unit];
        if known.units.contains_key(unit) {
            assert(unit_ok(on, known, unit));
        }
        let fresh = (event matches Event::Ask { unit: u } && u == unit) && exec::slot(
            known.slots,
            unit,
        ) is None;
        if fresh {
            exec::law_a_unit_runs_once(known.slots, unit, unit, Status::Passed);
        } else {
            assert(known.units.contains_key(unit));
            assert forall|k: int|
                0 <= k < at && (k < at - 1 || status == Status::Passed) implies has_served(
                on,
                after.slots,
                #[trigger] steps[k],
            ) by {
                let before = known.units[unit];
                if k < before.0 {
                    // A unit that takes a step has passed all those before it.
                    assert(has_served(on, known.slots, steps[k]));
                    lemma_served_stays(on, known, event, after, steps[k]);
                } else {
                    lemma_step_serves(on, known.slots, steps[k], event->items);
                }
            }
        }
    }
}

proof fn lemma_run_is_ok(on: Setting, events: Seq<Event>, known: Seq<Known>, n: int)
    requires
        is_run(on, events, known),
        0 <= n < known.len(),
    ensures
        known_ok(on, known[n]),
    decreases n,
{
    if n > 0 {
        lemma_run_is_ok(on, events, known, n - 1);
        assert(happens(on, known[n - 1], events[n - 1], known[n - 1 + 1]));
        lemma_known_stays_ok(on, known[n - 1], events[n - 1], known[n]);
    }
}

/// A unit never goes back a step.
proof fn lemma_steps_advance(
    on: Setting,
    events: Seq<Event>,
    known: Seq<Known>,
    i: int,
    j: int,
    unit: Seq<char>,
)
    requires
        is_run(on, events, known),
        0 <= i <= j < known.len(),
        known[i].units.contains_key(unit),
    ensures
        known[j].units.contains_key(unit),
        known[i].units[unit].0 <= known[j].units[unit].0,
    decreases j,
{
    if i < j {
        lemma_steps_advance(on, events, known, i, j - 1, unit);
        lemma_run_is_ok(on, events, known, j - 1);
        assert(unit_ok(on, known[j - 1], unit));
        assert(happens(on, known[j - 1], events[j - 1], known[j - 1 + 1]));
    }
}

/// The own work of a planned unit is its last step, if it is anywhere.
proof fn lemma_command_is_last(on: Setting, unit: Seq<char>, k: int)
    requires
        is_planned(on),
        0 <= k < (on.plan)(unit).len(),
        (on.plan)(unit)[k] is Command,
    ensures
        k == (on.plan)(unit).len() - 1,
{
    let steps = (on.plan)(unit);
    assert(is_unit(on, unit, steps));
    let none = on.skip;
    if steps == exec::steps_of_task(on.cfg, unit) {
        let t = config::find_task(on.cfg.tasks, unit)->0;
        exec::law_own_work_comes_last(on.cfg, t, unit, on.pkgs, 0, none, Status::Passed);
        if k < steps.len() - 1 {
            assert(!exec::is_own(exec::steps_of_task(on.cfg, unit)[k]));
        }
    } else {
        let (t, index) = choose|t: TaskView, index: int|
            0 <= index < on.pkgs.len() && unit == exec::node_label(t.key, on.pkgs[index].rel)
                && steps == #[trigger] exec::steps_of_node(
                on.cfg.tasks,
                t,
                on.pkgs,
                index,
                on.skip,
            );
        exec::law_own_work_comes_last(on.cfg, t, unit, on.pkgs, index, none, Status::Passed);
        if k < steps.len() - 1 {
            assert(!exec::is_own(
                exec::steps_of_node(on.cfg.tasks, t, on.pkgs, index, on.skip)[k],
            ));
        }
    }
}

// ---------------------------------------------------------------------------
// Laws
// ---------------------------------------------------------------------------
/// Whatever happens in a run, and in whatever order, the command of a unit is run
/// at most once.
pub proof fn law_a_command_runs_once(
    on: Setting,
    events: Seq<Event>,
    known: Seq<Known>,
    unit: Seq<char>,
    i: int,
    j: int,
)
    requires
        is_run(on, events, known),
        runs_command(on, events, known, i, unit),
        runs_command(on, events, known, j, unit),
    ensures
        i == j,
{
    if i < j {
        lemma_command_once(on, events, known, unit, i, j);
    } else if j < i {
        lemma_command_once(on, events, known, unit, j, i);
    }
}

proof fn lemma_command_once(
    on: Setting,
    events: Seq<Event>,
    known: Seq<Known>,
    unit: Seq<char>,
    i: int,
    j: int,
)
    requires
        is_run(on, events, known),
        i < j,
        runs_command(on, events, known, i, unit),
    ensures
        !runs_command(on, events, known, j, unit),
{
    if runs_command(on, events, known, j, unit) {
        assert(happens(on, known[i], events[i], known[i + 1]));
        assert(happens(on, known[j], events[j], known[j + 1]));
        lemma_run_is_ok(on, events, known, i);
        lemma_run_is_ok(on, events, known, j);
        assert(unit_ok(on, known[i], unit));
        assert(unit_ok(on, known[j], unit));
        lemma_steps_advance(on, events, known, i + 1, j, unit);
        lemma_command_is_last(on, unit, known[i].units[unit].0);
        lemma_command_is_last(on, unit, known[j].units[unit].0);
    }
}

/// Once a unit has come to an end it stays with what it came to: everybody who
/// asks for it in the same run is told the same.
pub proof fn law_everybody_is_told_the_same(
    on: Setting,
    events: Seq<Event>,
    known: Seq<Known>,
    unit: Seq<char>,
    i: int,
    j: int,
)
    requires
        is_run(on, events, known),
        0 <= i <= j < known.len(),
    ensures
        exec::slot(known[i].slots, unit) matches Some(Some(status)) ==> exec::slot(
            known[j].slots,
            unit,
        ) == Some(Some(status)),
    decreases j,
{
    if i < j {
        law_everybody_is_told_the_same(on, events, known, unit, i, j - 1);
        assert(happens(on, known[j - 1], events[j - 1], known[j - 1 + 1]));
        lemma_ends_stay(on, known[j - 1], events[j - 1], known[j], unit);
    }
}

/// A unit's command is run only when every step before it has passed: each unit
/// that one of them runs has come to its end, and passed.
pub proof fn law_a_command_comes_after_its_steps(
    on: Setting,
    events: Seq<Event>,
    known: Seq<Known>,
    unit: Seq<char>,
    i: int,
    k: int,
)
    requires
        is_run(on, events, known),
        runs_command(on, events, known, i, unit),
        0 <= k < (on.plan)(unit).len() - 1,
    ensures
        has_served(on, known[i].slots, (on.plan)(unit)[k]),
{
    assert(happens(on, known[i], events[i], known[i + 1]));
    lemma_run_is_ok(on, events, known, i);
    assert(unit_ok(on, known[i], unit));
    lemma_command_is_last(on, unit, known[i].units[unit].0);
    assert(has_served(on, known[i].slots, (on.plan)(unit)[k]));
}

/// A task's command runs in a package only after each of its ordinary
/// dependencies has run and passed, and after each task that it names with `^` has
/// run and passed in every package that this one depends on.
pub proof fn law_a_package_comes_after_what_it_depends_on(
    on: Setting,
    events: Seq<Event>,
    known: Seq<Known>,
    t: TaskView,
    index: int,
    i: int,
    d: int,
)
    requires
        is_run(on, events, known),
        0 <= index < on.pkgs.len(),
        ({
            let unit = exec::node_label(t.key, on.pkgs[index].rel);
            &&& (on.plan)(unit) == exec::steps_of_node(on.cfg.tasks, t, on.pkgs, index, on.skip)
            &&& runs_command(on, events, known, i, unit)
        }),
        0 <= d < t.deps.len(),
    ensures
        match config::upstream(t.deps[d]) {
            None => has_passed(known[i].slots, t.deps[d]),
            Some(name) => forall|q: int| #[trigger]
                pkggraph::deps(on.pkgs, index).contains(q) ==> has_passed(
                    known[i].slots,
                    exec::node_label(name, on.pkgs[q].rel),
                ),
        },
{
    let unit = exec::node_label(t.key, on.pkgs[index].rel);
    let steps = (on.plan)(unit);
    let slots = known[i].slots;
    let nodes = pkggraph::deps(on.pkgs, index);
    assert(happens(on, known[i], events[i], known[i + 1]));
    lemma_run_is_ok(on, events, known, i);
    assert(unit_ok(on, known[i], unit));
    let at = known[i].units[unit].0;
    lemma_command_is_last(on, unit, at);
    assert(!exec::in_list(on.skip, on.pkgs[index].rel));
    match config::upstream(t.deps[d]) {
        None => {
            let keys = graph::ordinary(t.deps, t.deps.len() as int);
            graph::lemma_ordinary(t.deps, t.deps.len() as int);
            assert(keys.contains(t.deps[d]));
            let step = StepView::Deps { keys, parallel: t.parallel };
            assert(exec::deps_steps(t)[0] == step);
            assert(steps[0] == step);
            law_a_command_comes_after_its_steps(on, events, known, unit, i, 0);
            assert(has_served(on, slots, step));
            let k = choose|k: int| 0 <= k < keys.len() && keys[k] == t.deps[d];
            assert(has_passed(slots, keys[k]));
        },
        Some(name) => {
            if nodes.len() > 0 {
                let more = exec::upstream_steps(on.cfg.tasks, t, nodes, t.deps.len() as int);
                let j = exec::lemma_upstream_step_at(
                    on.cfg.tasks,
                    t,
                    nodes,
                    d,
                    t.deps.len() as int,
                );
                let k = exec::deps_steps(t).len() + j;
                assert(steps[k] == more[j]);
                law_a_command_comes_after_its_steps(on, events, known, unit, i, k);
                assert forall|q: int| #[trigger] nodes.contains(q) implies has_passed(
                    slots,
                    exec::node_label(name, on.pkgs[q].rel),
                ) by {
                    let n = choose|n: int| 0 <= n < nodes.len() && nodes[n] == q;
                    assert(has_passed(slots, exec::node_label(name, on.pkgs[nodes[n]].rel)));
                }
            }
        },
    }
}

/// In a package that is taken as done nothing runs, and the task passes there;
/// or it is skipped, if the run had been given up before it began.
pub proof fn law_nothing_runs_where_all_is_done(
    on: Setting,
    events: Seq<Event>,
    known: Seq<Known>,
    t: TaskView,
    index: int,
    i: int,
)
    requires
        is_run(on, events, known),
        0 <= index < on.pkgs.len(),
        exec::in_list(on.skip, on.pkgs[index].rel),
        (on.plan)(exec::node_label(t.key, on.pkgs[index].rel)) == exec::steps_of_node(
            on.cfg.tasks,
            t,
            on.pkgs,
            index,
            on.skip,
        ),
        0 <= i < events.len(),
    ensures
        ({
            let unit = exec::node_label(t.key, on.pkgs[index].rel);
            &&& !runs_command(on, events, known, i, unit)
            &&& events[i] matches Event::Take { unit: u, status, .. } ==> u == unit ==> status
                == Status::Passed
            &&& events[i] matches Event::End { unit: u, status, aborted } ==> u == unit
                ==> status == Status::Passed || (status == Status::Skipped && aborted
                && known[i].units[unit].0 == 0)
        }),
{
    let unit = exec::node_label(t.key, on.pkgs[index].rel);
    assert(happens(on, known[i], events[i], known[i + 1]));
    lemma_done_passes(on, events, known, unit, i);
    if known[i].units.contains_key(unit) {
        lemma_run_is_ok(on, events, known, i);
        assert(unit_ok(on, known[i], unit));
    }
}

proof fn lemma_done_passes(
    on: Setting,
    events: Seq<Event>,
    known: Seq<Known>,
    unit: Seq<char>,
    n: int,
)
    requires
        is_run(on, events, known),
        (on.plan)(unit) == seq![StepView::Satisfied],
        0 <= n < known.len(),
    ensures
        known[n].units.contains_key(unit) ==> known[n].units[unit].1 == Status::Passed,
    decreases n,
{
    if n > 0 {
        lemma_done_passes(on, events, known, unit, n - 1);
        assert(happens(on, known[n - 1], events[n - 1], known[n - 1 + 1]));
        if known[n - 1].units.contains_key(unit) {
            lemma_run_is_ok(on, events, known, n - 1);
            assert(unit_ok(on, known[n - 1], unit));
        }
    }
}

/// A unit: a task, or a task in the package at a position.
pub enum UnitName {
    Task(Seq<char>),
    Node(Seq<char>, int),
}

/// The steps of a unit.
pub open spec fn steps_of(on: Setting, u: UnitName) -> Seq<StepView> {
    match u {
        UnitName::Task(key) => exec::steps_of_task(on.cfg, key),
        UnitName::Node(key, index) => match config::find_task(on.cfg.tasks, key) {
            Some(t) if 0 <= index < on.pkgs.len() => exec::steps_of_node(
                on.cfg.tasks,
                t,
                on.pkgs,
                index,
                on.skip,
            ),
            _ => Seq::empty(),
        },
    }
}

/// Whether a step of the unit `u` asks for the unit `v`.
pub open spec fn step_asks(on: Setting, u: UnitName, step: StepView, v: UnitName) -> bool {
    match (step, v) {
        (StepView::Deps { keys, .. }, UnitName::Task(key)) => keys.contains(key),
        (StepView::Upstream { task, nodes, .. }, UnitName::Node(key, index)) => key == task
            && nodes.contains(index),
        (StepView::FanOut, UnitName::Node(key, index)) => u == UnitName::Task(key) && 0 <= index
            < on.pkgs.len(),
        _ => false,
    }
}

/// Whether the unit `u` asks for the unit `v`, and waits for it.
pub open spec fn asks(on: Setting, u: UnitName, v: UnitName) -> bool {
    exists|i: int| 0 <= i < steps_of(on, u).len() && step_asks(on, u, #[trigger] steps_of(on, u)[i], v)
}

/// What a unit asks for, it has from its task's dependencies.
proof fn lemma_asks(on: Setting, u: UnitName, v: UnitName)
    requires
        asks(on, u, v),
    ensures
        match (u, v) {
            (UnitName::Task(a), UnitName::Task(b)) => graph::needs(on.cfg.tasks, a, b),
            (UnitName::Task(a), UnitName::Node(b, q)) => a == b && 0 <= q < on.pkgs.len(),
            (UnitName::Node(a, p), UnitName::Task(b)) => graph::needs(on.cfg.tasks, a, b),
            (UnitName::Node(a, p), UnitName::Node(b, q)) => graph::up_edge(on.cfg.tasks, a, b) && 0
                <= p < on.pkgs.len() && pkggraph::deps(on.pkgs, p).contains(q),
        },
{
    let steps = steps_of(on, u);
    let i = choose|i: int| 0 <= i < steps.len() && step_asks(on, u, #[trigger] steps[i], v);
    match u {
        UnitName::Task(a) => {
            if let Some(t) = config::find_task(on.cfg.tasks, a) {
                graph::lemma_ordinary(t.deps, t.deps.len() as int);
            }
        },
        UnitName::Node(a, p) => {
            let t = config::find_task(on.cfg.tasks, a)->0;
            graph::lemma_ordinary(t.deps, t.deps.len() as int);
            let nodes = pkggraph::deps(on.pkgs, p);
            let front = exec::deps_steps(t);
            let more = exec::upstream_steps(on.cfg.tasks, t, nodes, t.deps.len() as int);
            if i >= front.len() && nodes.len() > 0 && i < steps.len() - 1 {
                assert(steps[i] == more[i - front.len()]);
                lemma_upstream_named(on, a, t, nodes, t.deps.len() as int, i - front.len());
            }
        },
    }
}

/// A step that runs a task in other packages comes from a `^` dependency.
proof fn lemma_upstream_named(
    on: Setting,
    key: Seq<char>,
    t: TaskView,
    nodes: Seq<int>,
    n: int,
    i: int,
)
    requires
        config::find_task(on.cfg.tasks, key) == Some(t),
        0 <= n <= t.deps.len(),
        0 <= i < exec::upstream_steps(on.cfg.tasks, t, nodes, n).len(),
    ensures
        match exec::upstream_steps(on.cfg.tasks, t, nodes, n)[i] {
            StepView::Upstream { task, nodes: m, .. } => m == nodes && graph::up_edge(
                on.cfg.tasks,
                key,
                task,
            ),
            StepView::Fail(_) => true,
            _ => false,
        },
    decreases n,
{
    let before = exec::upstream_steps(on.cfg.tasks, t, nodes, n - 1);
    if i < before.len() {
        lemma_upstream_named(on, key, t, nodes, n - 1, i);
    } else {
        let deps = graph::deps_of(on.cfg.tasks, key);
        assert(config::upstream(deps[n - 1]) == config::upstream(t.deps[n - 1]));
    }
}

/// Whether each unit asks for the next, without end.
pub open spec fn is_endless(on: Setting, units: spec_fn(nat) -> UnitName) -> bool {
    forall|i: nat| asks(on, #[trigger] units(i), units(i + 1))
}

proof fn lemma_comes_to_an_end(
    on: Setting,
    order: Seq<Seq<char>>,
    packages: Seq<int>,
    units: spec_fn(nat) -> UnitName,
    i: nat,
    at: int,
    rank: int,
)
    requires
        graph::is_order(on.cfg.tasks, order),
        pkggraph::is_order(pkggraph::upstream_edges(on.pkgs), packages),
        0 <= at < order.len(),
        match units(i) {
            UnitName::Task(key) => order[at] == key,
            UnitName::Node(key, index) => graph::up_reaches(on.cfg.tasks, order[at], key) && 0
                <= rank < packages.len() && packages[rank] == index,
        },
    ensures
        !is_endless(on, units),
    decreases
            at,
            if units(i) is Task {
                1int
            } else {
                0int
            },
            rank,
{
    if is_endless(on, units) {
        let tasks = on.cfg.tasks;
        let u = units(i);
        let v = units(i + 1);
        let edges = pkggraph::upstream_edges(on.pkgs);
        assert(asks(on, u, units(i + 1)));
        lemma_asks(on, u, v);
        match v {
            UnitName::Task(b) => {
                let a = match u {
                    UnitName::Task(a) => a,
                    UnitName::Node(a, _) => a,
                };
                if u is Task {
                    graph::lemma_up_reaches_itself(tasks, a);
                }
                assert(graph::up_reaches(tasks, order[at], a));
                assert(graph::waits(tasks, order[at], b));
                let j = choose|j: int| 0 <= j < at && #[trigger] order[j] == b;
                lemma_comes_to_an_end(on, order, packages, units, i + 1, j, 0);
            },
            UnitName::Node(b, q) => {
                match u {
                    UnitName::Task(a) => {
                        graph::lemma_up_reaches_itself(tasks, a);
                        assert(packages.contains(q));
                        let k = choose|k: int| 0 <= k < packages.len() && packages[k] == q;
                        lemma_comes_to_an_end(on, order, packages, units, i + 1, at, k);
                    },
                    UnitName::Node(a, p) => {
                        graph::lemma_up_way_extends(tasks, order[at], a, b);
                        assert(edges[packages[rank]] == pkggraph::deps(on.pkgs, p));
                        assert(edges[packages[rank]].contains(q));
                        let k = choose|k: int| 0 <= k < rank && #[trigger] packages[k] == q;
                        lemma_comes_to_an_end(on, order, packages, units, i + 1, at, k);
                    },
                }
            },
        }
    }
}

/// A run comes to an end: in a graph that was accepted, over packages that can be
/// ordered, there is no endless chain of units each of which waits for the next.
/// So none waits for itself, directly or not.
pub proof fn law_no_unit_waits_for_ever(
    on: Setting,
    root: Seq<char>,
    units: spec_fn(nat) -> UnitName,
)
    requires
        graph::graph_error(on.cfg.tasks, root) is None,
        pkggraph::topo(on.pkgs) is Ok,
        units(0) == UnitName::Task(root),
    ensures
        !is_endless(on, units),
{
    graph::law_accepted_graphs_have_an_order(on.cfg.tasks, root);
    pkggraph::law_order_puts_dependencies_first(on.pkgs);
    let order = choose|order: Seq<Seq<char>>| #[trigger]
        graph::is_order(on.cfg.tasks, order) && order.contains(root);
    let at = choose|i: int| 0 <= i < order.len() && order[i] == root;
    lemma_comes_to_an_end(on, order, pkggraph::topo(on.pkgs)->Ok_0, units, 0, at, 0);
}

} // verus!
