//! What a run does next, and what came of it.
//!
//! A run is made of units: a task, or a task in one package. Each unit is a list
//! of steps that are taken in order for as long as they succeed; the command of
//! the unit itself is the last one. The functions here say which steps those are,
//! which one comes next, and what each result means for the unit, for its
//! siblings and for the run. Starting processes, threads and reading files is the
//! caller's part.

use vstd::prelude::*;

use crate::builtins;
use crate::config;
use crate::config::{Config, ConfigView, Task, TaskView};
use crate::detect;
use crate::detect::Markers;
use crate::env;
use crate::env::{EnvMap, Vars};
use crate::error;
use crate::error::{ErrorView, TsrError, EXIT_RUNNER_ERROR};
use crate::graph;
use crate::pkggraph;
use crate::pkggraph::PackageGraph;
use crate::proc::EXIT_INTERRUPTED;
use crate::resolve;
use crate::resolve::{Invocation, InvocationView};
use crate::shell;
use crate::shell::{Arg, ArgView, ExecPlan, ExecPlanView, ExpandedCommand, PlanView, RunPlan, Sep};
use crate::text;
use crate::workspace;
use crate::workspace::PackageView;

verus! {

// ---------------------------------------------------------------------------
// Results
// ---------------------------------------------------------------------------
/// What became of a unit.
#[derive(Debug, Clone, Copy, PartialEq, Eq, Structural)]
pub enum Status {
    Passed,
    /// Its command failed, with this exit code.
    Failed(i32),
    /// It was not run, or not to its end.
    Skipped,
    /// The runner itself could not go on.
    Runner,
}

/// How a command ended.
#[derive(Debug, PartialEq, Eq)]
pub enum LeafWait {
    Exited(i32),
    /// It was ended because the run was given up.
    Killed,
    /// It could not be started, or not be waited for.
    SpawnFailed(String),
}

/// The result of a unit's command.
#[derive(Debug, Clone, Copy, PartialEq, Eq, Structural)]
pub enum ResultKind {
    Passed,
    Failed(i32),
    Skipped,
}

/// A time that has passed, as it is printed.
#[derive(Debug, PartialEq, Eq)]
pub struct Elapsed {
    /// In seconds, for the summary.
    pub seconds: String,
    /// In milliseconds, for the JSON lines.
    pub millis: String,
}

/// A result, kept for the summary.
#[derive(Debug, PartialEq, Eq)]
pub struct JobResult {
    pub label: String,
    pub kind: ResultKind,
    pub dur: Option<Elapsed>,
}

/// How far a run has come.
#[derive(Debug)]
pub struct Progress {
    /// `--no-bail`: a failure does not end the run.
    pub no_bail: bool,
    /// No more work is to be started, and what runs is to be ended.
    pub aborted: bool,
    /// The user interrupted the run.
    pub interrupted: bool,
    /// The exit code of the first command that failed.
    pub first_failure: Option<i32>,
    /// The first thing that kept the runner itself from going on.
    pub runner_error: Option<String>,
    pub results: Vec<JobResult>,
}

/// How a command ended.
pub enum WaitView {
    Exited(i32),
    Killed,
    SpawnFailed(Seq<char>),
}

/// A time that has passed, as it is printed.
pub struct ElapsedView {
    pub seconds: Seq<char>,
    pub millis: Seq<char>,
}

/// A result.
pub struct ResultView {
    pub label: Seq<char>,
    pub kind: ResultKind,
    pub dur: Option<ElapsedView>,
}

/// How far a run has come.
pub struct ProgressView {
    pub no_bail: bool,
    pub aborted: bool,
    pub interrupted: bool,
    pub first_failure: Option<i32>,
    pub runner_error: Option<Seq<char>>,
    pub results: Seq<ResultView>,
}

impl View for LeafWait {
    type V = WaitView;

    open spec fn view(&self) -> WaitView {
        match self {
            LeafWait::Exited(c) => WaitView::Exited(*c),
            LeafWait::Killed => WaitView::Killed,
            LeafWait::SpawnFailed(m) => WaitView::SpawnFailed(m@),
        }
    }
}

/// What is printed of a time that has passed.
pub open spec fn elapsed_view(e: Option<Elapsed>) -> Option<ElapsedView> {
    match e {
        Some(e) => Some(ElapsedView { seconds: e.seconds@, millis: e.millis@ }),
        None => None,
    }
}

impl View for JobResult {
    type V = ResultView;

    open spec fn view(&self) -> ResultView {
        ResultView { label: self.label@, kind: self.kind, dur: elapsed_view(self.dur) }
    }
}

/// The views of a list of results.
pub open spec fn result_views(v: Seq<JobResult>) -> Seq<ResultView> {
    Seq::new(v.len(), |i: int| v[i]@)
}

impl View for Progress {
    type V = ProgressView;

    open spec fn view(&self) -> ProgressView {
        ProgressView {
            no_bail: self.no_bail,
            aborted: self.aborted,
            interrupted: self.interrupted,
            first_failure: self.first_failure,
            runner_error: config::opt_text(self.runner_error),
            results: result_views(self.results@),
        }
    }
}

/// Before anything has run.
pub open spec fn fresh(no_bail: bool) -> ProgressView {
    ProgressView {
        no_bail,
        aborted: false,
        interrupted: false,
        first_failure: None,
        runner_error: None,
        results: Seq::empty(),
    }
}

/// After a command failed: the first code is kept, and the run is given up
/// unless it is to go on.
pub open spec fn with_failure(p: ProgressView, code: i32) -> ProgressView {
    ProgressView {
        first_failure: if p.first_failure is None {
            Some(code)
        } else {
            p.first_failure
        },
        aborted: p.aborted || !p.no_bail,
        ..p
    }
}

/// After the runner could not go on: the first message is kept, and the run is
/// given up in any case.
pub open spec fn with_runner_error(p: ProgressView, msg: Seq<char>) -> ProgressView {
    ProgressView {
        runner_error: if p.runner_error is None {
            Some(msg)
        } else {
            p.runner_error
        },
        aborted: true,
        ..p
    }
}

/// After an interrupt.
pub open spec fn with_interrupt(p: ProgressView) -> ProgressView {
    ProgressView { interrupted: true, aborted: true, ..p }
}

/// With one more result.
pub open spec fn with_result(
    p: ProgressView,
    label: Seq<char>,
    kind: ResultKind,
    dur: Option<ElapsedView>,
) -> ProgressView {
    ProgressView { results: p.results.push(ResultView { label, kind, dur }), ..p }
}

/// After a command ended: what the run has come to, and what became of the unit.
pub open spec fn after_leaf(
    p: ProgressView,
    label: Seq<char>,
    wait: WaitView,
    dur: Option<ElapsedView>,
) -> (ProgressView, Status) {
    match wait {
        WaitView::Exited(code) => if code == 0 {
            (with_result(p, label, ResultKind::Passed, dur), Status::Passed)
        } else {
            (
                with_result(with_failure(p, code), label, ResultKind::Failed(code), dur),
                Status::Failed(code),
            )
        },
        WaitView::Killed => (with_result(p, label, ResultKind::Skipped, dur), Status::Skipped),
        WaitView::SpawnFailed(msg) => (
            with_result(
                with_runner_error(p, msg),
                label,
                ResultKind::Failed(EXIT_RUNNER_ERROR),
                dur,
            ),
            Status::Runner,
        ),
    }
}

/// The exit code of the run. An interrupt outranks everything; then the first
/// command that failed counts, with its own code; then the runner's own failure.
pub open spec fn run_code(p: ProgressView) -> int {
    if p.interrupted {
        EXIT_INTERRUPTED as int
    } else {
        match p.first_failure {
            Some(c) => c as int,
            None => if p.runner_error is Some {
                EXIT_RUNNER_ERROR as int
            } else {
                0
            },
        }
    }
}

impl Progress {
    /// Before anything has run.
    pub fn new(no_bail: bool) -> (p: Progress)
        ensures
            p@ == fresh(no_bail),
    {
        let p = Progress {
            no_bail,
            aborted: false,
            interrupted: false,
            first_failure: None,
            runner_error: None,
            results: Vec::new(),
        };
        assert(p@.results =~= Seq::empty());
        p
    }

    /// Take note of a command that failed.
    pub fn note_failure(&mut self, code: i32)
        ensures
            final(self)@ == with_failure(old(self)@, code),
    {
        if self.first_failure.is_none() {
            self.first_failure = Some(code);
        }
        if !self.no_bail {
            self.aborted = true;
        }
    }

    /// Take note of something that keeps the runner itself from going on.
    pub fn note_runner(&mut self, msg: String)
        ensures
            final(self)@ == with_runner_error(old(self)@, msg@),
    {
        if self.runner_error.is_none() {
            self.runner_error = Some(msg);
        }
        self.aborted = true;
    }

    /// Take note of an interrupt. `--no-bail` does not outweigh it.
    pub fn interrupt(&mut self)
        ensures
            final(self)@ == with_interrupt(old(self)@),
    {
        self.interrupted = true;
        self.aborted = true;
    }

    /// Keep a result for the summary.
    pub fn record(&mut self, label: &str, kind: ResultKind, dur: Option<Elapsed>)
        ensures
            final(self)@ == with_result(old(self)@, label@, kind, elapsed_view(dur)),
    {
        let ghost before = result_views(self.results@);
        let result = JobResult { label: label.to_string(), kind, dur };
        let ghost seen = result@;
        self.results.push(result);
        assert(result_views(self.results@) =~= before.push(seen));
    }

    /// Whether a unit's command may start; if not, it is recorded as skipped.
    pub fn start_leaf(&mut self, label: &str) -> (r: bool)
        ensures
            r == !old(self).aborted,
            final(self)@ == if old(self)@.aborted {
                with_result(old(self)@, label@, ResultKind::Skipped, None)
            } else {
                old(self)@
            },
    {
        if self.aborted {
            self.record(label, ResultKind::Skipped, None);
            return false;
        }
        true
    }

    /// Take note of how a unit's command ended; what became of the unit.
    pub fn finish_leaf(&mut self, label: &str, wait: LeafWait, dur: Option<Elapsed>) -> (s: Status)
        ensures
            (final(self)@, s) == after_leaf(old(self)@, label@, wait@, elapsed_view(dur)),
    {
        match wait {
            LeafWait::Exited(code) => {
                if code == 0 {
                    self.record(label, ResultKind::Passed, dur);
                    Status::Passed
                } else {
                    self.note_failure(code);
                    self.record(label, ResultKind::Failed(code), dur);
                    Status::Failed(code)
                }
            },
            LeafWait::Killed => {
                self.record(label, ResultKind::Skipped, dur);
                Status::Skipped
            },
            LeafWait::SpawnFailed(msg) => {
                self.note_runner(msg);
                self.record(label, ResultKind::Failed(EXIT_RUNNER_ERROR), dur);
                Status::Runner
            },
        }
    }

    /// The exit code of the run.
    pub fn exit_code(&self) -> (code: i32)
        ensures
            code == run_code(self@),
    {
        if self.interrupted {
            return EXIT_INTERRUPTED;
        }
        match self.first_failure {
            Some(c) => c,
            None => {
                if self.runner_error.is_some() {
                    EXIT_RUNNER_ERROR
                } else {
                    0
                }
            },
        }
    }
}

// ---------------------------------------------------------------------------
// Each unit once
// ---------------------------------------------------------------------------
/// What to do about a unit that is asked for.
#[derive(Debug, Clone, Copy, PartialEq, Eq, Structural)]
pub enum Claim {
    /// Nobody has asked for it before: run it.
    Mine,
    /// It is being run: wait for it.
    Running,
    /// It has been run, and this became of it.
    Finished(Status),
}

/// The units that have been asked for.
///
/// A task goes by its key, and a task in a package by `<task> (<package>)`. No
/// key looks like that: task names have neither spaces nor parentheses.
pub struct Memo {
    slots: Vec<(String, Option<Status>)>,
}

/// A unit and what became of it, if it has come to an end.
pub type Slots = Seq<(Seq<char>, Option<Status>)>;

/// What is known of a unit.
pub open spec fn slot(slots: Slots, key: Seq<char>) -> Option<Option<Status>>
    decreases slots.len(),
{
    if slots.len() == 0 {
        None
    } else if slots[0].0 == key {
        Some(slots[0].1)
    } else {
        slot(slots.drop_first(), key)
    }
}

/// The units after one was asked for.
pub open spec fn claimed(slots: Slots, key: Seq<char>) -> Slots {
    match slot(slots, key) {
        Some(_) => slots,
        None => slots.push((key, None)),
    }
}

/// The units after one came to an end.
pub open spec fn finished(slots: Slots, key: Seq<char>, status: Status) -> Slots {
    Seq::new(
        slots.len(),
        |i: int|
            if slots[i].0 == key {
                (key, Some(status))
            } else {
                slots[i]
            },
    )
}

/// The units after one was left out.
pub open spec fn left_out(slots: Slots, key: Seq<char>) -> Slots {
    match slot(slots, key) {
        Some(_) => slots,
        None => finished(claimed(slots, key), key, Status::Skipped),
    }
}

/// The views of the slots.
pub open spec fn slot_views(v: Seq<(String, Option<Status>)>) -> Slots {
    Seq::new(v.len(), |i: int| (v[i].0@, v[i].1))
}

impl View for Memo {
    type V = Slots;

    closed spec fn view(&self) -> Slots {
        slot_views(self.slots@)
    }
}

impl Memo {
    /// Before any unit was asked for.
    pub fn new() -> (m: Memo)
        ensures
            m@ == Seq::<(Seq<char>, Option<Status>)>::empty(),
    {
        let m = Memo { slots: Vec::new() };
        assert(m@ =~= Seq::empty());
        m
    }

    fn find(&self, key: &str) -> (r: Option<Option<Status>>)
        ensures
            r == slot(self@, key@),
    {
        let ghost all = self@;
        let mut i: usize = 0;
        assert(all.skip(0) =~= all);
        while i < self.slots.len()
            invariant
                i <= self.slots.len(),
                all == self@,
                slot(all, key@) == slot(all.skip(i as int), key@),
            decreases self.slots.len() - i,
        {
            assert(all.skip(i as int)[0] == all[i as int]);
            if text::same(self.slots[i].0.as_str(), key) {
                return Some(self.slots[i].1);
            }
            assert(all.skip(i as int).drop_first() =~= all.skip(i + 1));
            i += 1;
        }
        None
    }

    /// Ask for a unit.
    pub fn claim(&mut self, key: &str) -> (r: Claim)
        ensures
            final(self)@ == claimed(old(self)@, key@),
            r == match slot(old(self)@, key@) {
                None => Claim::Mine,
                Some(None) => Claim::Running,
                Some(Some(status)) => Claim::Finished(status),
            },
    {
        match self.find(key) {
            Some(Some(status)) => Claim::Finished(status),
            Some(None) => Claim::Running,
            None => {
                let ghost before = self@;
                self.slots.push((key.to_string(), None));
                assert(self@ =~= before.push((key@, None)));
                Claim::Mine
            },
        }
    }

    /// Say what became of a unit.
    pub fn finish(&mut self, key: &str, status: Status)
        ensures
            final(self)@ == finished(old(self)@, key@, status),
    {
        let ghost before = self@;
        let mut slots: Vec<(String, Option<Status>)> = Vec::new();
        let mut i: usize = 0;
        while i < self.slots.len()
            invariant
                i <= self.slots.len(),
                before == slot_views(self.slots@),
                slots.len() == i,
                forall|j: int|
                    0 <= j < i ==> slot_views(slots@)[j] == #[trigger] finished(
                        before,
                        key@,
                        status,
                    )[j],
            decreases self.slots.len() - i,
        {
            let ghost so_far = slot_views(slots@);
            let done = if text::same(self.slots[i].0.as_str(), key) {
                Some(status)
            } else {
                self.slots[i].1
            };
            slots.push((self.slots[i].0.clone(), done));
            assert(slot_views(slots@) =~= so_far.push((before[i as int].0, done)));
            i += 1;
        }
        self.slots = slots;
        assert(self@ =~= finished(before, key@, status));
    }

    /// Leave a unit out that is not going to be started. Whether nobody had asked
    /// for it before: it then counts as skipped for whoever asks later.
    pub fn skip(&mut self, key: &str) -> (r: bool)
        ensures
            r == (slot(old(self)@, key@) is None),
            final(self)@ == left_out(old(self)@, key@),
    {
        match self.claim(key) {
            Claim::Mine => {
                self.finish(key, Status::Skipped);
                true
            },
            _ => false,
        }
    }
}

// ---------------------------------------------------------------------------
// Batches
// ---------------------------------------------------------------------------
/// A batch that is run one item after the other.
#[derive(Debug, Clone, Copy, PartialEq, Eq, Structural)]
pub struct Sequence {
    pub no_bail: bool,
    /// What the items so far came to.
    pub result: Status,
}

/// What a batch comes to with one more item: the last one that did not pass.
pub open spec fn then_status(result: Status, s: Status) -> Status {
    if s == Status::Passed {
        result
    } else {
        s
    }
}

/// Whether the next item of a batch is started.
pub open spec fn goes_on(result: Status, no_bail: bool) -> bool {
    result == Status::Passed || no_bail
}

/// What the first `n` items of a batch come to, given what each would return if
/// it were started.
pub open spec fn sequence_result(statuses: Seq<Status>, no_bail: bool, n: int) -> Status
    decreases n,
{
    if n <= 0 {
        Status::Passed
    } else {
        let before = sequence_result(statuses, no_bail, n - 1);
        if goes_on(before, no_bail) {
            then_status(before, statuses[n - 1])
        } else {
            before
        }
    }
}

impl Sequence {
    /// Before the first item.
    pub fn new(no_bail: bool) -> (b: Sequence)
        ensures
            b == (Sequence { no_bail, result: Status::Passed }),
    {
        Sequence { no_bail, result: Status::Passed }
    }

    /// Whether the next item is started: not after one that did not pass, unless
    /// the batch is to be run to its end.
    pub fn proceeds(&self) -> (r: bool)
        ensures
            r == goes_on(self.result, self.no_bail),
    {
        self.result == Status::Passed || self.no_bail
    }

    /// Take note of what became of an item.
    pub fn note(&mut self, s: Status)
        ensures
            *final(self) == (Sequence {
                no_bail: old(self).no_bail,
                result: then_status(old(self).result, s),
            }),
    {
        if s != Status::Passed {
            self.result = s;
        }
    }
}

/// The first item from `from` on that did not pass.
pub open spec fn first_stop(statuses: Seq<Status>, from: int) -> Option<int>
    decreases statuses.len() - from,
{
    if from < 0 || from >= statuses.len() {
        None
    } else if statuses[from] != Status::Passed {
        Some(from)
    } else {
        first_stop(statuses, from + 1)
    }
}

/// The items of a batch of `n` that are not started: all behind the first that
/// did not pass, unless the batch is to be run to its end.
pub open spec fn skipped_items(statuses: Seq<Status>, no_bail: bool, n: int) -> Seq<int> {
    match first_stop(statuses, 0) {
        Some(k) => if no_bail || k + 1 >= n {
            Seq::empty()
        } else {
            Seq::new((n - k - 1) as nat, |i: int| k + 1 + i)
        },
        None => Seq::empty(),
    }
}

/// The items of a sequential batch of `n` that are recorded as skipped, given what
/// those that were started came to.
pub fn skipped_from(statuses: &Vec<Status>, no_bail: bool, n: usize) -> (r: Vec<usize>)
    ensures
        workspace::positions(r@) == skipped_items(statuses@, no_bail, n as int),
{
    let mut out: Vec<usize> = Vec::new();
    assert(workspace::positions(out@) =~= Seq::<int>::empty());
    let mut k: usize = 0;
    while k < statuses.len() && statuses[k] == Status::Passed
        invariant
            k <= statuses.len(),
            first_stop(statuses@, 0) == first_stop(statuses@, k as int),
        decreases statuses.len() - k,
    {
        k += 1;
    }
    if no_bail || k >= statuses.len() || k + 1 >= n {
        return out;
    }
    let mut i: usize = k + 1;
    while i < n
        invariant
            k < i <= n,
            workspace::positions(out@) == Seq::new((i - k - 1) as nat, |j: int| k + 1 + j),
        decreases n - i,
    {
        let ghost before = workspace::positions(out@);
        out.push(i);
        assert(workspace::positions(out@) =~= before.push(i as int));
        i += 1;
        assert(workspace::positions(out@) =~= Seq::new((i - k - 1) as nat, |j: int| k + 1 + j));
    }
    out
}

/// The code of the first item that failed.
pub open spec fn first_failed(statuses: Seq<Status>, from: int) -> Option<i32>
    decreases statuses.len() - from,
{
    if from >= statuses.len() {
        None
    } else {
        match statuses[from] {
            Status::Failed(c) => Some(c),
            _ => first_failed(statuses, from + 1),
        }
    }
}

/// What the items of a parallel batch come to together.
pub open spec fn combined(statuses: Seq<Status>) -> Status {
    if statuses.contains(Status::Runner) {
        Status::Runner
    } else {
        match first_failed(statuses, 0) {
            Some(c) => Status::Failed(c),
            None => if statuses.contains(Status::Skipped) {
                Status::Skipped
            } else {
                Status::Passed
            },
        }
    }
}

/// What the items of a parallel batch come to together: the runner's own
/// failure before a failed command, and that before an item that was skipped.
pub fn combine(statuses: &Vec<Status>) -> (r: Status)
    ensures
        r == combined(statuses@),
{
    let mut failed: Option<i32> = None;
    let mut runner = false;
    let mut skipped = false;
    let mut i: usize = 0;
    while i < statuses.len()
        invariant
            i <= statuses.len(),
            failed is Some ==> first_failed(statuses@, 0) == failed,
            failed is None ==> first_failed(statuses@, 0) == first_failed(statuses@, i as int),
            runner <==> exists|j: int| 0 <= j < i && #[trigger] statuses@[j] == Status::Runner,
            skipped <==> exists|j: int| 0 <= j < i && #[trigger] statuses@[j] == Status::Skipped,
        decreases statuses.len() - i,
    {
        match statuses[i] {
            Status::Failed(c) => {
                if failed.is_none() {
                    failed = Some(c);
                }
            },
            Status::Runner => {
                runner = true;
            },
            Status::Skipped => {
                skipped = true;
            },
            Status::Passed => {},
        }
        i += 1;
    }
    if runner {
        return Status::Runner;
    }
    match failed {
        Some(c) => Status::Failed(c),
        None => {
            if skipped {
                Status::Skipped
            } else {
                Status::Passed
            }
        },
    }
}

// ---------------------------------------------------------------------------
// Steps
// ---------------------------------------------------------------------------
/// One step of a unit.
#[derive(Debug, PartialEq, Eq)]
pub enum Step {
    /// Run these tasks, as a batch.
    Deps { keys: Vec<String>, parallel: bool },
    /// Run a task in these packages, as a batch.
    Upstream { task: String, nodes: Vec<usize>, parallel: bool },
    /// The runner cannot go on, for this reason.
    Fail(String),
    /// An earlier run has done this unit: record it as skipped, and go on.
    Satisfied,
    /// Run the task in each package it selects.
    FanOut,
    /// There is no command: the dependencies were the work.
    Nothing,
    /// Run the unit's own command.
    Command,
}

/// One step of a unit.
pub enum StepView {
    Deps { keys: Seq<Seq<char>>, parallel: bool },
    Upstream { task: Seq<char>, nodes: Seq<int>, parallel: bool },
    Fail(Seq<char>),
    Satisfied,
    FanOut,
    Nothing,
    Command,
}

impl View for Step {
    type V = StepView;

    open spec fn view(&self) -> StepView {
        match self {
            Step::Deps { keys, parallel } => StepView::Deps {
                keys: text::texts(keys@),
                parallel: *parallel,
            },
            Step::Upstream { task, nodes, parallel } => StepView::Upstream {
                task: task@,
                nodes: workspace::positions(nodes@),
                parallel: *parallel,
            },
            Step::Fail(m) => StepView::Fail(m@),
            Step::Satisfied => StepView::Satisfied,
            Step::FanOut => StepView::FanOut,
            Step::Nothing => StepView::Nothing,
            Step::Command => StepView::Command,
        }
    }
}

/// The views of a list of steps.
pub open spec fn step_views(v: Seq<Step>) -> Seq<StepView> {
    Seq::new(v.len(), |i: int| v[i]@)
}

/// The step that runs a task's plain dependencies, where it has any.
pub open spec fn deps_steps(t: TaskView) -> Seq<StepView> {
    let keys = graph::ordinary(t.deps, t.deps.len() as int);
    if keys.len() == 0 {
        Seq::empty()
    } else {
        seq![StepView::Deps { keys, parallel: t.parallel }]
    }
}

/// What a task itself does. A task with dependencies and without `run` and
/// `delegate` is nothing but its dependencies; one without any of the three is
/// left to its package's own runner.
pub open spec fn own_step(t: TaskView) -> StepView {
    if t.packages is Some {
        StepView::FanOut
    } else if t.run is None && t.delegate is None && t.deps.len() > 0 {
        StepView::Nothing
    } else {
        StepView::Command
    }
}

/// The steps of a task.
pub open spec fn steps_of_task(cfg: ConfigView, key: Seq<char>) -> Seq<StepView> {
    match config::find_task(cfg.tasks, key) {
        None => seq![StepView::Fail("unknown task '"@ + key + "'"@)],
        Some(t) => deps_steps(t).push(own_step(t)),
    }
}

/// The steps that the first `n` dependencies of a task ask for in the packages
/// that a package depends on.
pub open spec fn upstream_steps(
    tasks: Seq<TaskView>,
    t: TaskView,
    nodes: Seq<int>,
    n: int,
) -> Seq<StepView>
    decreases n,
{
    if n <= 0 {
        Seq::empty()
    } else {
        let before = upstream_steps(tasks, t, nodes, n - 1);
        match config::upstream(t.deps[n - 1]) {
            None => before,
            Some(name) => before.push(
                if config::find_task(tasks, name) is Some {
                    StepView::Upstream { task: name, nodes, parallel: t.parallel }
                } else {
                    StepView::Fail(
                        "task '"@ + t.key + "': upstream dep '"@ + t.deps[n - 1]
                            + "' names no task '"@ + name + "'"@,
                    )
                },
            ),
        }
    }
}

/// Whether a list of packages is given and holds one.
pub open spec fn in_list(list: Option<Seq<Seq<char>>>, rel: Seq<char>) -> bool {
    match list {
        Some(v) => v.contains(rel),
        None => false,
    }
}

/// The steps of a task in one package: its plain dependencies, then each `^name`
/// in every package that this one depends on, then its own command. In a package
/// that is taken as done there is nothing to do.
pub open spec fn steps_of_node(
    tasks: Seq<TaskView>,
    t: TaskView,
    pkgs: Seq<PackageView>,
    index: int,
    skip: Option<Seq<Seq<char>>>,
) -> Seq<StepView> {
    let nodes = pkggraph::deps(pkgs, index);
    if in_list(skip, pkgs[index].rel) {
        seq![StepView::Satisfied]
    } else if nodes.len() == 0 {
        deps_steps(t).push(StepView::Command)
    } else {
        (deps_steps(t) + upstream_steps(tasks, t, nodes, t.deps.len() as int)).push(
            StepView::Command,
        )
    }
}

/// A task's plain dependencies: all but the `^name` ones.
pub fn plain_deps(task: &Task) -> (r: Vec<String>)
    ensures
        text::texts(r@) == graph::ordinary(task@.deps, task@.deps.len() as int),
{
    let ghost deps = task@.deps;
    let mut out: Vec<String> = Vec::new();
    let mut i: usize = 0;
    assert(text::texts(out@) =~= Seq::empty());
    while i < task.deps.len()
        invariant
            i <= task.deps.len(),
            deps == text::texts(task.deps@),
            text::texts(out@) == graph::ordinary(deps, i as int),
        decreases task.deps.len() - i,
    {
        assert(deps[i as int] == task.deps@[i as int]@);
        if config::upstream_dep(task.deps[i].as_str()).is_none() {
            let ghost before = text::texts(out@);
            out.push(task.deps[i].clone());
            assert(text::texts(out@) =~= before.push(deps[i as int]));
        }
        i += 1;
    }
    out
}

fn push_deps_step(task: &Task, steps: &mut Vec<Step>)
    ensures
        step_views(final(steps)@) == step_views(old(steps)@) + deps_steps(task@),
{
    let ghost before = step_views(steps@);
    let keys = plain_deps(task);
    if keys.len() == 0 {
        assert(text::texts(keys@).len() == 0);
        assert(before + deps_steps(task@) =~= before);
        return ;
    }
    let step = Step::Deps { keys, parallel: task.parallel };
    let ghost seen = step@;
    steps.push(step);
    assert(step_views(steps@) =~= before.push(seen));
    assert(before + deps_steps(task@) =~= before.push(seen));
}

/// Put a step behind the others.
fn push_step(steps: &mut Vec<Step>, step: Step)
    ensures
        step_views(final(steps)@) == step_views(old(steps)@).push(step@),
{
    let ghost before = step_views(steps@);
    let ghost seen = step@;
    steps.push(step);
    assert(step_views(steps@) =~= before.push(seen));
}

/// The steps of a task.
pub fn task_steps(cfg: &Config, key: &str) -> (r: Vec<Step>)
    ensures
        step_views(r@) == steps_of_task(cfg@, key@),
{
    let mut steps: Vec<Step> = Vec::new();
    assert(step_views(steps@) =~= Seq::empty());
    match cfg.task(key) {
        None => {
            push_step(&mut steps, Step::Fail(text::join3("unknown task '", key, "'")));
            assert(step_views(steps@) =~= steps_of_task(cfg@, key@));
        },
        Some(task) => {
            push_deps_step(task, &mut steps);
            assert(step_views(steps@) =~= deps_steps(task@));
            let own = if task.packages.is_some() {
                Step::FanOut
            } else if task.run.is_none() && task.delegate.is_none() && task.deps.len() > 0 {
                Step::Nothing
            } else {
                Step::Command
            };
            push_step(&mut steps, own);
        },
    }
    steps
}

/// Whether a list of packages is given and holds one.
fn listed(list: &Option<Vec<String>>, rel: &str) -> (r: bool)
    ensures
        r == in_list(config::opt_texts(*list), rel@),
{
    match list {
        Some(v) => text::member(v, rel),
        None => false,
    }
}

fn copy_positions(v: &Vec<usize>) -> (r: Vec<usize>)
    ensures
        r@ == v@,
{
    let mut out: Vec<usize> = Vec::new();
    let mut i: usize = 0;
    while i < v.len()
        invariant
            i <= v.len(),
            out@ == v@.take(i as int),
        decreases v.len() - i,
    {
        out.push(v[i]);
        assert(v@.take(i + 1) =~= v@.take(i as int).push(v@[i as int]));
        i += 1;
    }
    assert(v@.take(i as int) =~= v@);
    out
}

/// The steps of a task in one package. `skip` are the packages that are taken as
/// done.
pub fn node_steps(
    cfg: &Config,
    task: &Task,
    graph: &PackageGraph,
    index: usize,
    skip: &Option<Vec<String>>,
) -> (r: Vec<Step>)
    requires
        index < graph@.len(),
    ensures
        step_views(r@) == steps_of_node(
            cfg@.tasks,
            task@,
            graph@,
            index as int,
            config::opt_texts(*skip),
        ),
{
    let ghost tasks = cfg@.tasks;
    let mut steps: Vec<Step> = Vec::new();
    assert(step_views(steps@) =~= Seq::empty());
    if listed(skip, graph.get(index).rel.as_str()) {
        push_step(&mut steps, Step::Satisfied);
        assert(step_views(steps@) =~= seq![StepView::Satisfied]);
        return steps;
    }
    push_deps_step(task, &mut steps);
    assert(step_views(steps@) =~= deps_steps(task@));
    let upstream = graph.deps_of(index);
    let ghost nodes = pkggraph::deps(graph@, index as int);
    assert(nodes.len() == upstream.len());
    if upstream.len() > 0 {
        let ghost first = deps_steps(task@);
        let mut i: usize = 0;
        assert(first + upstream_steps(tasks, task@, nodes, 0) =~= first);
        while i < task.deps.len()
            invariant
                i <= task.deps.len(),
                tasks == cfg@.tasks,
                task@.deps == text::texts(task.deps@),
                nodes == workspace::positions(upstream@),
                step_views(steps@) == first + upstream_steps(tasks, task@, nodes, i as int),
            decreases task.deps.len() - i,
        {
            let dep = task.deps[i].as_str();
            assert(task@.deps[i as int] == dep@);
            let ghost before = upstream_steps(tasks, task@, nodes, i as int);
            match config::upstream_dep(dep) {
                None => {},
                Some(name) => {
                    let step = match cfg.task(name.as_str()) {
                        Some(_) => Step::Upstream {
                            task: name,
                            nodes: copy_positions(upstream),
                            parallel: task.parallel,
                        },
                        None => {
                            let mut m = text::join3("task '", task.key.as_str(), "': upstream dep '");
                            m.append(dep);
                            m.append("' names no task '");
                            m.append(name.as_str());
                            m.append("'");
                            Step::Fail(m)
                        },
                    };
                    let ghost seen = step@;
                    push_step(&mut steps, step);
                    assert(first + before.push(seen) =~= (first + before).push(seen));
                },
            }
            i += 1;
        }
    }
    push_step(&mut steps, Step::Command);
    steps
}

// ---------------------------------------------------------------------------
// Units
// ---------------------------------------------------------------------------
/// A unit that is being run.
#[derive(Debug)]
pub struct Unit {
    pub steps: Vec<Step>,
    /// How many steps have been taken.
    pub at: usize,
    /// What the last one came to.
    pub status: Status,
}

/// What a unit does next.
#[derive(Debug, Clone, Copy, PartialEq, Eq, Structural)]
pub enum Next {
    /// It has come to an end.
    Finish(Status),
    /// Take the step at this position.
    Perform(usize),
}

/// Whether a step is the unit's own work.
pub open spec fn is_own(step: StepView) -> bool {
    step is FanOut || step is Nothing || step is Command
}

/// What a unit does next. The steps are taken in order for as long as they pass.
/// When the run has been given up, a unit that has not begun, or that has come to
/// its own work, is skipped.
pub open spec fn next_step(steps: Seq<StepView>, at: int, status: Status, aborted: bool) -> Next {
    if status != Status::Passed {
        Next::Finish(status)
    } else if at >= steps.len() {
        Next::Finish(Status::Passed)
    } else if aborted && (at == 0 || is_own(steps[at])) {
        Next::Finish(Status::Skipped)
    } else {
        Next::Perform(at as usize)
    }
}

impl Unit {
    /// A unit that has not begun.
    pub fn new(steps: Vec<Step>) -> (u: Unit)
        ensures
            u == (Unit { steps, at: 0, status: Status::Passed }),
    {
        Unit { steps, at: 0, status: Status::Passed }
    }

    /// What the unit does next.
    pub fn next(&self, aborted: bool) -> (r: Next)
        ensures
            r == next_step(step_views(self.steps@), self.at as int, self.status, aborted),
            r matches Next::Perform(i) ==> i < self.steps.len(),
    {
        if self.status != Status::Passed {
            return Next::Finish(self.status);
        }
        if self.at >= self.steps.len() {
            return Next::Finish(Status::Passed);
        }
        assert(step_views(self.steps@)[self.at as int] == self.steps@[self.at as int]@);
        let own = match &self.steps[self.at] {
            Step::FanOut => true,
            Step::Nothing => true,
            Step::Command => true,
            _ => false,
        };
        if aborted && (self.at == 0 || own) {
            return Next::Finish(Status::Skipped);
        }
        Next::Perform(self.at)
    }

    /// Take note of what a step came to.
    pub fn advance(&mut self, status: Status)
        requires
            old(self).at < old(self).steps.len(),
        ensures
            *final(self) == (Unit { steps: old(self).steps, at: (old(self).at + 1) as usize, status }),
    {
        self.at = self.at + 1;
        self.status = status;
    }
}

// ---------------------------------------------------------------------------
// Packages
// ---------------------------------------------------------------------------
/// Which packages a run is restricted to. Not given is another thing than an
/// empty list, which selects nothing.
#[derive(Debug, PartialEq, Eq)]
pub struct Selection {
    /// `--since`: the only packages that a fan-out may select.
    pub affected: Option<Vec<String>>,
    /// `--resume-from`: the packages that are taken as done.
    pub skip: Option<Vec<String>>,
}

/// Which packages a run is restricted to.
pub struct SelectionView {
    pub affected: Option<Seq<Seq<char>>>,
    pub skip: Option<Seq<Seq<char>>>,
}

impl View for Selection {
    type V = SelectionView;

    open spec fn view(&self) -> SelectionView {
        SelectionView {
            affected: config::opt_texts(self.affected),
            skip: config::opt_texts(self.skip),
        }
    }
}

/// Whether a fan-out may select a package: it must pass both filters.
pub open spec fn may_select(sel: SelectionView, rel: Seq<char>) -> bool {
    &&& sel.affected is None || in_list(sel.affected, rel)
    &&& !in_list(sel.skip, rel)
}

impl Selection {
    /// No restriction.
    pub fn plain() -> (s: Selection)
        ensures
            s@ == (SelectionView { affected: None, skip: None }),
    {
        Selection { affected: None, skip: None }
    }

    /// Whether a fan-out may select a package. What a `^name` asks for is not
    /// restricted: it is needed whether it changed or not.
    pub fn selected(&self, rel: &str) -> (r: bool)
        ensures
            r == may_select(self@, rel@),
    {
        (self.affected.is_none() || listed(&self.affected, rel)) && !listed(&self.skip, rel)
    }
}

/// How a task runs in its packages.
#[derive(Debug, PartialEq, Eq)]
pub enum FanOut {
    /// The runner cannot go on, for this reason.
    Fail(String),
    /// No package is left: the line that says so.
    Nothing(String),
    /// In each of these packages, independently of each other.
    Flat(Vec<usize>),
    /// In each of these packages, after what they depend on.
    Ordered(Vec<usize>),
}

/// How a task runs in its packages.
pub enum FanOutView {
    Fail(Seq<char>),
    Nothing(Seq<char>),
    Flat(Seq<int>),
    Ordered(Seq<int>),
}

impl View for FanOut {
    type V = FanOutView;

    open spec fn view(&self) -> FanOutView {
        match self {
            FanOut::Fail(m) => FanOutView::Fail(m@),
            FanOut::Nothing(m) => FanOutView::Nothing(m@),
            FanOut::Flat(v) => FanOutView::Flat(workspace::positions(v@)),
            FanOut::Ordered(v) => FanOutView::Ordered(workspace::positions(v@)),
        }
    }
}

/// Of the first `n` chosen packages, those that the run is not kept from.
pub open spec fn kept(pkgs: Seq<PackageView>, sel: SelectionView, v: Seq<int>, n: int) -> Seq<int>
    decreases n,
{
    if n <= 0 {
        Seq::empty()
    } else if may_select(sel, pkgs[v[n - 1]].rel) {
        kept(pkgs, sel, v, n - 1).push(v[n - 1])
    } else {
        kept(pkgs, sel, v, n - 1)
    }
}

/// Whether one of a task's dependencies is a `^name`.
pub open spec fn needs_order(t: TaskView) -> bool {
    exists|i: int| 0 <= i < t.deps.len() && config::upstream(#[trigger] t.deps[i]) is Some
}

/// How a task runs in its packages, given those that its `packages` entries
/// choose. An entry that matches no package is an error; that none of those it
/// matches is selected is not.
pub open spec fn fan_out_of(
    t: TaskView,
    pkgs: Seq<PackageView>,
    sel: SelectionView,
    choice: Result<Seq<int>, ErrorView>,
) -> FanOutView {
    match choice {
        Err(e) => FanOutView::Fail(error::bare(e)),
        Ok(v) => {
            let picked = kept(pkgs, sel, v, v.len() as int);
            if picked.len() == 0 {
                FanOutView::Nothing("· "@ + t.key + " — no packages selected"@)
            } else if !needs_order(t) {
                FanOutView::Flat(picked)
            } else {
                match pkggraph::topo(pkgs) {
                    Err(e) => FanOutView::Fail(error::bare(e)),
                    Ok(_) => FanOutView::Ordered(picked),
                }
            }
        },
    }
}

/// Whether a plan names packages of the workspace only.
pub open spec fn names_packages(f: FanOut, n: nat) -> bool {
    match f {
        FanOut::Flat(v) => forall|k: int| 0 <= k < v.len() ==> (#[trigger] v@[k]) < n,
        FanOut::Ordered(v) => forall|k: int| 0 <= k < v.len() ==> (#[trigger] v@[k]) < n,
        _ => true,
    }
}

/// How a task runs in its packages, all packages of the workspace being in
/// `graph`.
pub fn fan_out(task: &Task, graph: &PackageGraph, sel: &Selection) -> (r: FanOut)
    requires
        task.packages is Some,
    ensures
        exists|choice: Result<Seq<int>, ErrorView>|
            workspace::is_choice(graph@, task@.packages->0, task@.key, choice) && r@
                == #[trigger] fan_out_of(task@, graph@, sel@, choice),
        names_packages(r, graph@.len()),
{
    let patterns = match &task.packages {
        Some(p) => p,
        None => {
            assert(false);
            return FanOut::Fail(String::new());
        },
    };
    let choice = workspace::match_packages(graph.packages(), patterns, task.key.as_str());
    fan_out_to(task, graph, sel, choice)
}

/// How a task runs in its packages, given those that its `packages` entries
/// choose.
pub fn fan_out_to(
    task: &Task,
    graph: &PackageGraph,
    sel: &Selection,
    choice: Result<Vec<usize>, TsrError>,
) -> (r: FanOut)
    requires
        choice matches Ok(v) ==> forall|k: int|
            0 <= k < v.len() ==> (#[trigger] v@[k]) < graph@.len(),
    ensures
        r@ == fan_out_of(task@, graph@, sel@, workspace::result_view(choice)),
        names_packages(r, graph@.len()),
{
    let ghost pkgs = graph@;
    let all = graph.packages();
    assert(pkgs.len() == all.len());
    let matched = match choice {
        Ok(v) => v,
        Err(e) => return FanOut::Fail(e.bare_message()),
    };
    let ghost v = workspace::positions(matched@);
    let mut picked: Vec<usize> = Vec::new();
    let mut i: usize = 0;
    assert(workspace::positions(picked@) =~= Seq::empty());
    while i < matched.len()
        invariant
            i <= matched.len(),
            pkgs == workspace::package_views(all@),
            v == workspace::positions(matched@),
            forall|k: int| 0 <= k < matched.len() ==> (#[trigger] matched@[k]) < all.len(),
            forall|k: int| 0 <= k < picked.len() ==> (#[trigger] picked@[k]) < all.len(),
            workspace::positions(picked@) == kept(pkgs, sel@, v, i as int),
        decreases matched.len() - i,
    {
        assert(v[i as int] == matched@[i as int]);
        assert(pkgs[matched@[i as int] as int] == all@[matched@[i as int] as int]@);
        if sel.selected(all[matched[i]].rel.as_str()) {
            let ghost before = workspace::positions(picked@);
            picked.push(matched[i]);
            assert(workspace::positions(picked@) =~= before.push(v[i as int]));
        }
        i += 1;
    }
    assert(v.len() == matched.len());
    assert(workspace::positions(picked@).len() == picked.len());
    if picked.len() == 0 {
        return FanOut::Nothing(
            text::join3("· ", task.key.as_str(), " — no packages selected"),
        );
    }
    let mut ordered = false;
    let mut i: usize = 0;
    while i < task.deps.len()
        invariant
            i <= task.deps.len(),
            task@.deps == text::texts(task.deps@),
            ordered <==> exists|j: int|
                0 <= j < i && config::upstream(#[trigger] task@.deps[j]) is Some,
        decreases task.deps.len() - i,
    {
        assert(task@.deps[i as int] == task.deps@[i as int]@);
        if config::upstream_dep(task.deps[i].as_str()).is_some() {
            ordered = true;
        }
        i += 1;
    }
    if !ordered {
        return FanOut::Flat(picked);
    }
    match graph.topo_order() {
        Err(e) => FanOut::Fail(e.bare_message()),
        Ok(_) => FanOut::Ordered(picked),
    }
}

/// The label of a task in a package.
pub open spec fn node_label(key: Seq<char>, rel: Seq<char>) -> Seq<char> {
    key + " ("@ + rel + ")"@
}

/// The label of a task in a package.
pub fn label(key: &str, rel: &str) -> (r: String)
    ensures
        r@ == node_label(key@, rel@),
{
    let mut s = text::join3(key, " (", rel);
    s.append(")");
    s
}

/// The packages that `--resume-from` takes as done: those before the given one
/// in the order in which the workspace is built.
pub open spec fn resumed(pkgs: Seq<PackageView>, key: Seq<char>) -> Result<
    Seq<Seq<char>>,
    ErrorView,
> {
    let at = if pkggraph::rel_index(pkgs, key) >= 0 {
        pkggraph::rel_index(pkgs, key)
    } else {
        pkggraph::name_index(pkgs, key)
    };
    if at >= pkgs.len() {
        Err(ErrorView::Runtime("'--resume-from "@ + key + "' matched no workspace package"@))
    } else {
        match pkggraph::topo(pkgs) {
            Err(e) => Err(e),
            Ok(order) => Ok(
                pkggraph::rel_texts(pkgs, order.take(before_item(order, at))),
            ),
        }
    }
}

/// How many items stand before the first `x`.
pub open spec fn before_item(v: Seq<int>, x: int) -> int
    decreases v.len(),
{
    if v.len() == 0 || v[0] == x {
        0
    } else {
        1 + before_item(v.drop_first(), x)
    }
}

/// The packages that `--resume-from` takes as done.
pub fn resume_skip(graph: &PackageGraph, key: &str) -> (r: Result<Vec<String>, TsrError>)
    ensures
        match r {
            Ok(v) => resumed(graph@, key@) == Ok::<Seq<Seq<char>>, ErrorView>(text::texts(v@)),
            Err(e) => resumed(graph@, key@) == Err::<Seq<Seq<char>>, ErrorView>(e@),
        },
{
    let at = match graph.index_of(key) {
        Some(i) => i,
        None => {
            let msg = text::join3("'--resume-from ", key, "' matched no workspace package");
            return Err(TsrError::runtime(msg.as_str()));
        },
    };
    let order = match graph.topo_order() {
        Ok(v) => v,
        Err(e) => return Err(e),
    };
    let ghost all = workspace::positions(order@);
    let mut before: Vec<usize> = Vec::new();
    let mut i: usize = 0;
    assert(all.skip(0) =~= all);
    assert(workspace::positions(before@) =~= all.take(0));
    while i < order.len() && order[i] != at
        invariant
            i <= order.len(),
            all == workspace::positions(order@),
            before.len() == i,
            forall|k: int| 0 <= k < order.len() ==> (#[trigger] order@[k]) < graph@.len(),
            forall|k: int| 0 <= k < before.len() ==> (#[trigger] before@[k]) < graph@.len(),
            workspace::positions(before@) == all.take(i as int),
            before_item(all, at as int) == i + before_item(all.skip(i as int), at as int),
        decreases order.len() - i,
    {
        assert(all.skip(i as int)[0] == all[i as int]);
        assert(all.skip(i as int).drop_first() =~= all.skip(i + 1));
        let ghost so_far = workspace::positions(before@);
        before.push(order[i]);
        assert(workspace::positions(before@) =~= so_far.push(all[i as int]));
        assert(all.take(i + 1) =~= all.take(i as int).push(all[i as int]));
        i += 1;
    }
    if i < order.len() {
        assert(all.skip(i as int)[0] == all[i as int]);
    }
    assert(before_item(all, at as int) == i);
    Ok(graph.rels(&before))
}

/// Whether one of these tasks runs a batch in parallel.
pub open spec fn any_parallel(tasks: Seq<TaskView>, keys: Seq<Seq<char>>) -> bool {
    exists|i: int|
        0 <= i < keys.len() && match config::find_task(tasks, #[trigger] keys[i]) {
            Some(t) => t.parallel,
            None => false,
        }
}

/// Whether one of these tasks runs a batch in parallel.
pub fn runs_parallel(cfg: &Config, keys: &Vec<String>) -> (r: bool)
    ensures
        r == any_parallel(cfg@.tasks, text::texts(keys@)),
{
    let ghost all = text::texts(keys@);
    let mut i: usize = 0;
    while i < keys.len()
        invariant
            i <= keys.len(),
            all == text::texts(keys@),
            forall|j: int|
                0 <= j < i ==> match config::find_task(cfg@.tasks, #[trigger] all[j]) {
                    Some(t) => !t.parallel,
                    None => true,
                },
        decreases keys.len() - i,
    {
        assert(all[i as int] == keys@[i as int]@);
        if let Some(t) = cfg.task(keys[i].as_str()) {
            if t.parallel {
                return true;
            }
        }
        i += 1;
    }
    false
}

// ---------------------------------------------------------------------------
// Commands
// ---------------------------------------------------------------------------
/// What a unit's command executes.
#[derive(Debug)]
pub enum Action {
    /// A delegate or a native runner: always a program.
    Spawn { program: String, args: Vec<String> },
    /// A `run` string: each command is a builtin or a program.
    Shell(ExecPlan),
}

/// One command in one directory with one environment.
pub struct Job {
    pub label: String,
    pub dir: String,
    pub env: EnvMap,
    pub action: Action,
}

/// What there is to know, outside the config, of the place a command runs in.
pub struct Facts {
    /// The marker files in the directory.
    pub markers: Markers,
    /// The environment of the runner itself.
    pub process: EnvMap,
    /// The pairs of the root `.env`.
    pub dotenv: Vec<(String, String)>,
    /// The pairs of the task's `env_file`s, in order.
    pub files: Vec<(String, String)>,
    /// The `node_modules/.bin` directories that exist, nearest first.
    pub bins: Vec<String>,
    /// What separates the entries of `PATH`.
    pub sep: char,
}

/// What a unit's command executes.
pub enum ActionView {
    Spawn { program: Seq<char>, args: Seq<Seq<char>> },
    Shell(ExecPlanView),
}

impl View for Action {
    type V = ActionView;

    open spec fn view(&self) -> ActionView {
        match self {
            Action::Spawn { program, args } => ActionView::Spawn {
                program: program@,
                args: text::texts(args@),
            },
            Action::Shell(p) => ActionView::Shell(p@),
        }
    }
}

/// Words that are used as they stand.
pub open spec fn literals(words: Seq<Seq<char>>) -> Seq<ArgView> {
    Seq::new(words.len(), |i: int| ArgView::Literal(words[i]))
}

/// A sequence with more words behind its last command.
pub open spec fn appended(p: ExecPlanView, extra: Seq<Seq<char>>) -> ExecPlanView {
    if p.rest.len() == 0 {
        ExecPlanView { first: p.first + literals(extra), rest: p.rest }
    } else {
        ExecPlanView {
            first: p.first,
            rest: p.rest.drop_last().push((p.rest.last().0, p.rest.last().1 + literals(extra))),
        }
    }
}

/// The environment of a task's command.
pub open spec fn job_env(cfg: ConfigView, t: TaskView, facts: Facts) -> Vars {
    env::with_bins(
        env::merged(
            facts.process@,
            facts.process.ignores_case(),
            config::pair_views(facts.dotenv@),
            cfg.env,
            config::pair_views(facts.files@),
            t.env,
        ),
        facts.process.ignores_case(),
        text::texts(facts.bins@),
        facts.sep,
    )
}

/// The names that the variables of a task's command go by.
pub open spec fn job_names(cfg: ConfigView, t: TaskView, facts: Facts) -> Seq<Seq<char>> {
    env::bins_names(
        env::merged_names(
            facts.process.names(),
            facts.process.ignores_case(),
            config::pair_views(facts.dotenv@),
            cfg.env,
            config::pair_views(facts.files@),
            t.env,
        ),
        facts.process.ignores_case(),
        text::texts(facts.bins@),
        facts.sep,
    )
}

/// What a task executes in a directory: its form, with the task's `args` and
/// then what the command line forwards behind it.
pub open spec fn action_of(
    t: TaskView,
    dir: Seq<char>,
    markers: Markers,
    vars: Vars,
    passthrough: Seq<Seq<char>>,
) -> Result<ActionView, Seq<char>> {
    let extra = t.args + passthrough;
    match resolve::invocation(t, dir, detect::ecosystem_of(markers)) {
        Err(e) => Err(error::bare(e)),
        Ok(InvocationView::Direct { program, args }) => Ok(
            ActionView::Spawn { program, args: args + extra },
        ),
        Ok(InvocationView::Run(run)) => match shell::plan(run) {
            Err(e) => Err(error::bare(e)),
            Ok(PlanView::Direct(argv)) => Ok(
                ActionView::Shell(
                    appended(ExecPlanView { first: literals(argv), rest: Seq::empty() }, extra),
                ),
            ),
            Ok(PlanView::Shell(p)) => match shell::first_undefined(
                shell::commands_vars(shell::all_commands(p)),
                vars,
            ) {
                Some(v) => Err(
                    error::bare(ErrorView::Config(shell::undefined_text(v.name))),
                ),
                None => Ok(ActionView::Shell(appended(shell::expanded(p, vars), extra))),
            },
        },
    }
}

/// Put words that are used as they stand behind a command.
fn extend_command(cmd: &mut ExpandedCommand, extra: &Vec<String>)
    ensures
        final(cmd)@ == old(cmd)@ + literals(text::texts(extra@)),
{
    let ghost before = cmd@;
    let ghost all = text::texts(extra@);
    let mut i: usize = 0;
    assert(before + literals(all).take(0) =~= before);
    while i < extra.len()
        invariant
            i <= extra.len(),
            all == text::texts(extra@),
            cmd@ == before + literals(all).take(i as int),
        decreases extra.len() - i,
    {
        let ghost so_far = cmd@;
        cmd.args.push(Arg::Literal(extra[i].clone()));
        assert(cmd@ =~= so_far.push(ArgView::Literal(all[i as int])));
        assert(literals(all).take(i + 1) =~= literals(all).take(i as int).push(
            literals(all)[i as int],
        ));
        i += 1;
    }
    assert(literals(all).take(i as int) =~= literals(all));
}

/// Put words behind the last command of a sequence: the command that the task's
/// `args` and the forwarded arguments are for. They are never taken as patterns.
pub fn append_to_last(plan: &mut ExecPlan, extra: &Vec<String>)
    ensures
        final(plan)@ == appended(old(plan)@, text::texts(extra@)),
{
    let ghost before = plan@;
    if plan.rest.len() == 0 {
        extend_command(&mut plan.first, extra);
        assert(plan@.rest =~= before.rest);
        return ;
    }
    let (sep, mut last) = plan.rest.pop().unwrap();
    extend_command(&mut last, extra);
    plan.rest.push((sep, last));
    assert(plan@.rest =~= appended(before, text::texts(extra@)).rest);
}

/// Words that are used as they stand, as a command.
fn literal_command(argv: &Vec<String>) -> (r: ExpandedCommand)
    ensures
        r@ == literals(text::texts(argv@)),
{
    let mut cmd = ExpandedCommand { args: Vec::new() };
    assert(cmd@ =~= Seq::empty());
    extend_command(&mut cmd, argv);
    assert(Seq::empty() + literals(text::texts(argv@)) =~= literals(text::texts(argv@)));
    cmd
}

/// A task's `args`, and then what the command line forwards.
fn extra_args(task: &Task, passthrough: &Vec<String>) -> (r: Vec<String>)
    ensures
        text::texts(r@) == task@.args + text::texts(passthrough@),
{
    let mut v = text::copy_strings(&task.args);
    text::extend(&mut v, passthrough);
    v
}

/// Make a task's form into something that can be run.
pub fn build_job(
    cfg: &Config,
    task: &Task,
    dir: &str,
    label: &str,
    passthrough: &Vec<String>,
    facts: &Facts,
) -> (r: Result<Job, String>)
    ensures
        ({
            let vars = job_env(cfg@, task@, *facts);
            let owed = action_of(task@, dir@, facts.markers, vars, text::texts(passthrough@));
            match r {
                Ok(job) => {
                    &&& owed == Ok::<ActionView, Seq<char>>(job.action@)
                    &&& job.label@ == label@
                    &&& job.dir@ == dir@
                    &&& job.env@ == vars
                    &&& job.env.names() == job_names(cfg@, task@, *facts)
                    &&& job.env.ignores_case() == facts.process.ignores_case()
                },
                Err(m) => owed == Err::<ActionView, Seq<char>>(m@),
            }
        }),
{
    let mut vars = env::build(cfg, task, &facts.process, &facts.dotenv, &facts.files);
    env::prepend_node_bin(&mut vars, &facts.bins, facts.sep);
    let extra = extra_args(task, passthrough);
    let invocation = match resolve::resolve(task, dir, &facts.markers) {
        Ok(i) => i,
        Err(e) => return Err(e.bare_message()),
    };
    let action = match invocation {
        Invocation::Direct { program, args } => {
            let mut all = args;
            text::extend(&mut all, &extra);
            Action::Spawn { program, args: all }
        },
        Invocation::Run(run) => {
            let mut plan = match shell::parse(run.as_str()) {
                Err(e) => return Err(e.bare_message()),
                Ok(RunPlan::Direct(argv)) => {
                    let plan = ExecPlan { first: literal_command(&argv), rest: Vec::new() };
                    assert(plan@.rest =~= Seq::empty());
                    plan
                },
                Ok(RunPlan::Shell(program)) => match program.expand(&vars) {
                    Ok(p) => p,
                    Err(e) => return Err(e.bare_message()),
                },
            };
            append_to_last(&mut plan, &extra);
            Action::Shell(plan)
        },
    };
    Ok(Job { label: label.to_string(), dir: dir.to_string(), env: vars, action })
}

/// A place that a task's command runs in, with what there is to know of it.
pub struct Place {
    pub dir: String,
    pub label: String,
    pub facts: Facts,
}

/// What a task executes in a place.
pub open spec fn action_in(
    cfg: ConfigView,
    t: TaskView,
    place: Place,
    passthrough: Seq<Seq<char>>,
) -> Result<ActionView, Seq<char>> {
    action_of(t, place.dir@, place.facts.markers, job_env(cfg, t, place.facts), passthrough)
}

/// Why a task cannot be run in the first of the places, from `from` on, that it
/// cannot be run in.
pub open spec fn jobs_error(
    cfg: ConfigView,
    t: TaskView,
    places: Seq<Place>,
    passthrough: Seq<Seq<char>>,
    from: int,
) -> Option<Seq<char>>
    decreases places.len() - from,
{
    if from >= places.len() {
        None
    } else {
        match action_in(cfg, t, places[from], passthrough) {
            Err(m) => Some(m),
            Ok(_) => jobs_error(cfg, t, places, passthrough, from + 1),
        }
    }
}

/// Whether a job is a task's command in a place.
pub open spec fn is_job_in(
    job: Job,
    cfg: ConfigView,
    t: TaskView,
    place: Place,
    passthrough: Seq<Seq<char>>,
) -> bool {
    &&& action_in(cfg, t, place, passthrough) == Ok::<ActionView, Seq<char>>(job.action@)
    &&& job.label@ == place.label@
    &&& job.dir@ == place.dir@
    &&& job.env@ == job_env(cfg, t, place.facts)
    &&& job.env.names() == job_names(cfg, t, place.facts)
    &&& job.env.ignores_case() == place.facts.process.ignores_case()
}

/// Make a task into a job in each of several places. Where it cannot be run in one
/// of them there are no jobs at all.
pub fn build_jobs(
    cfg: &Config,
    task: &Task,
    places: &Vec<Place>,
    passthrough: &Vec<String>,
) -> (r: Result<Vec<Job>, String>)
    ensures
        ({
            let failed = jobs_error(cfg@, task@, places@, text::texts(passthrough@), 0);
            match r {
                Ok(jobs) => failed is None && jobs.len() == places.len() && forall|i: int|
                    0 <= i < jobs.len() ==> is_job_in(
                        #[trigger] jobs@[i],
                        cfg@,
                        task@,
                        places@[i],
                        text::texts(passthrough@),
                    ),
                Err(m) => failed == Some(m@),
            }
        }),
{
    let ghost more = text::texts(passthrough@);
    let mut jobs: Vec<Job> = Vec::new();
    let mut i: usize = 0;
    while i < places.len()
        invariant
            i <= places.len(),
            jobs.len() == i,
            more == text::texts(passthrough@),
            jobs_error(cfg@, task@, places@, more, 0) == jobs_error(
                cfg@,
                task@,
                places@,
                more,
                i as int,
            ),
            forall|j: int|
                0 <= j < i ==> is_job_in(#[trigger] jobs@[j], cfg@, task@, places@[j], more),
        decreases places.len() - i,
    {
        let place = &places[i];
        match build_job(
            cfg,
            task,
            place.dir.as_str(),
            place.label.as_str(),
            passthrough,
            &place.facts,
        ) {
            Ok(job) => jobs.push(job),
            Err(m) => return Err(m),
        }
        i += 1;
    }
    Ok(jobs)
}

/// What a `run` string's sequence does next.
#[derive(Debug, PartialEq, Eq)]
pub enum ShellNext {
    /// Run the command at this position, the first one being 0.
    Run(usize),
    /// The sequence has come to an end.
    Finish(LeafWait),
}

/// What a sequence does next.
pub enum ShellNextView {
    Run(int),
    Finish(WaitView),
}

impl View for ShellNext {
    type V = ShellNextView;

    open spec fn view(&self) -> ShellNextView {
        match self {
            ShellNext::Run(i) => ShellNextView::Run(*i as int),
            ShellNext::Finish(w) => ShellNextView::Finish(w@),
        }
    }
}

/// What a sequence does when the commands before `at` have been dealt with and
/// the last one that ran exited with `last`. A command runs if its separator says
/// so; between two commands the sequence ends if the run has been given up. The
/// sequence ends as the last command that ran.
pub open spec fn shell_step(
    rest: Seq<(Sep, Seq<ArgView>)>,
    at: int,
    last: i32,
    aborted: bool,
) -> ShellNextView
    decreases rest.len() - at + 1,
{
    if at <= 0 {
        ShellNextView::Run(0)
    } else if at > rest.len() {
        ShellNextView::Finish(WaitView::Exited(last))
    } else if aborted {
        ShellNextView::Finish(WaitView::Killed)
    } else if rest[at - 1].0.spec_proceeds(last) {
        ShellNextView::Run(at)
    } else {
        shell_step(rest, at + 1, last, aborted)
    }
}

/// What a sequence does next.
pub fn shell_next(plan: &ExecPlan, at: usize, last: i32, aborted: bool) -> (r: ShellNext)
    ensures
        r@ == shell_step(plan@.rest, at as int, last, aborted),
        r matches ShellNext::Run(i) ==> at <= i <= plan.rest.len(),
{
    if at == 0 {
        return ShellNext::Run(0);
    }
    let ghost rest = plan@.rest;
    let mut k: usize = at - 1;
    while k < plan.rest.len()
        invariant
            at <= k + 1,
            at > 0,
            rest == plan@.rest,
            shell_step(rest, at as int, last, aborted) == shell_step(rest, k + 1, last, aborted),
        decreases plan.rest.len() - k,
    {
        assert(rest[k as int].0 == plan.rest@[k as int].0);
        if aborted {
            return ShellNext::Finish(LeafWait::Killed);
        }
        if plan.rest[k].0.proceeds(last) {
            return ShellNext::Run(k + 1);
        }
        k += 1;
    }
    ShellNext::Finish(LeafWait::Exited(last))
}

/// The command at a position of a sequence.
pub fn command_at(plan: &ExecPlan, i: usize) -> (r: &ExpandedCommand)
    requires
        i <= plan.rest.len(),
    ensures
        r@ == if i == 0 {
            plan@.first
        } else {
            plan@.rest[i - 1].1
        },
{
    if i == 0 {
        &plan.first
    } else {
        &plan.rest[i - 1].1
    }
}

/// How a command of a `run` string is run.
#[derive(Debug, PartialEq, Eq)]
pub enum Dispatch {
    /// Not at all: it is empty.
    Fail(String),
    /// By the runner itself.
    Builtin,
    /// As a program.
    Spawn,
}

/// How a command of a `run` string is run. A builtin comes before a program of
/// the same name.
pub fn dispatch(argv: &Vec<String>) -> (r: Dispatch)
    ensures
        match r {
            Dispatch::Fail(m) => argv.len() == 0 && m@ == "'run' string is empty"@,
            Dispatch::Builtin => argv.len() > 0 && builtins::builtin_names().contains(argv@[0]@),
            Dispatch::Spawn => argv.len() > 0 && !builtins::builtin_names().contains(argv@[0]@),
        },
{
    if argv.len() == 0 {
        return Dispatch::Fail("'run' string is empty".to_string());
    }
    if builtins::is_builtin(argv[0].as_str()) {
        Dispatch::Builtin
    } else {
        Dispatch::Spawn
    }
}

// ---------------------------------------------------------------------------
// The plan
// ---------------------------------------------------------------------------
/// A task's command as it is written, before any variable is replaced.
pub open spec fn command_text(
    t: TaskView,
    dir: Seq<char>,
    markers: Markers,
    passthrough: Seq<Seq<char>>,
) -> Result<Seq<char>, Seq<char>> {
    let extra = t.args + passthrough;
    match resolve::invocation(t, dir, detect::ecosystem_of(markers)) {
        Err(e) => Err(error::bare(e)),
        Ok(InvocationView::Direct { program, args }) => Ok(
            text::joined(seq![program] + args + extra, " "@),
        ),
        Ok(InvocationView::Run(run)) => match shell::plan(run) {
            Err(e) => Err(error::bare(e)),
            Ok(_) => Ok(text::joined(seq![run] + extra, " "@)),
        },
    }
}

/// The lines that a dry run prints for a command: its label, its directory and
/// the command as it is written, so that no value of the environment shows.
pub fn plan_lines(
    task: &Task,
    dir: &str,
    label: &str,
    passthrough: &Vec<String>,
    markers: &Markers,
) -> (r: Result<Vec<String>, String>)
    ensures
        ({
            let owed = command_text(task@, dir@, *markers, text::texts(passthrough@));
            match r {
                Ok(lines) => owed is Ok && text::texts(lines@) == seq![
                    label@,
                    "  dir: "@ + dir@,
                    "  run: "@ + owed->Ok_0,
                ],
                Err(m) => owed == Err::<Seq<char>, Seq<char>>(m@),
            }
        }),
{
    let extra = extra_args(task, passthrough);
    let ghost more = text::texts(extra@);
    let mut words: Vec<String> = Vec::new();
    match resolve::resolve(task, dir, markers) {
        Err(e) => return Err(e.bare_message()),
        Ok(Invocation::Direct { program, args }) => {
            let ghost first = program@;
            words.push(program);
            assert(text::texts(words@) =~= seq![first]);
            text::extend(&mut words, &args);
            text::extend(&mut words, &extra);
        },
        Ok(Invocation::Run(run)) => {
            if let Err(e) = shell::parse(run.as_str()) {
                return Err(e.bare_message());
            }
            let ghost first = run@;
            words.push(run);
            assert(text::texts(words@) =~= seq![first]);
            text::extend(&mut words, &extra);
        },
    }
    let command = text::join(&words, " ");
    let mut lines: Vec<String> = Vec::new();
    lines.push(label.to_string());
    lines.push(text::join2("  dir: ", dir));
    lines.push(text::join2("  run: ", command.as_str()));
    assert(text::texts(lines@) =~= seq![label@, "  dir: "@ + dir@, "  run: "@ + command@]);
    Ok(lines)
}

// ---------------------------------------------------------------------------
// Laws
// ---------------------------------------------------------------------------
proof fn lemma_slot_push(slots: Slots, item: (Seq<char>, Option<Status>), key: Seq<char>)
    ensures
        slot(slots, key) is Some ==> slot(slots.push(item), key) == slot(slots, key),
        slot(slots, key) is None ==> slot(slots.push(item), key) == if item.0 == key {
            Some(item.1)
        } else {
            None
        },
    decreases slots.len(),
{
    let more = slots.push(item);
    if slots.len() == 0 {
        assert(more.drop_first() =~= Seq::empty());
    } else {
        assert(more.drop_first() =~= slots.drop_first().push(item));
        if slots[0].0 != key {
            lemma_slot_push(slots.drop_first(), item, key);
        }
    }
}

proof fn lemma_slot_finished(slots: Slots, done: Seq<char>, status: Status, key: Seq<char>)
    ensures
        slot(finished(slots, done, status), key) == match slot(slots, key) {
            None => None,
            Some(s) => if key == done {
                Some(Some(status))
            } else {
                Some(s)
            },
        },
    decreases slots.len(),
{
    if slots.len() > 0 {
        let new = finished(slots, done, status);
        assert(new.drop_first() =~= finished(slots.drop_first(), done, status));
        if slots[0].0 != key {
            lemma_slot_finished(slots.drop_first(), done, status, key);
        }
    }
}

/// A unit is run at most once: from the moment that it is asked for it stays
/// known, whatever else is asked for or comes to an end, so nobody is told to run
/// it again. What became of it is what everybody who asks is told.
pub proof fn law_a_unit_runs_once(
    slots: Slots,
    key: Seq<char>,
    other: Seq<char>,
    status: Status,
)
    ensures
        slot(claimed(slots, key), key) is Some,
        slot(slots, key) is Some ==> slot(claimed(slots, other), key) == slot(slots, key),
        slot(slots, key) is Some ==> slot(finished(slots, other, status), key) is Some,
        slot(slots, key) is Some && other != key ==> slot(finished(slots, other, status), key)
            == slot(slots, key),
        slot(slots, key) is Some ==> slot(finished(slots, key, status), key) == Some(Some(status)),
{
    lemma_slot_push(slots, (key, None), key);
    lemma_slot_push(slots, (other, None), key);
    lemma_slot_finished(slots, other, status, key);
    lemma_slot_finished(slots, key, status, key);
}

/// Without `--no-bail` an item of a sequential batch is started only if all
/// before it passed; with it every item is started. Either way the batch passes
/// exactly if every item that was started did.
pub proof fn law_batches_fail_fast(statuses: Seq<Status>, no_bail: bool, n: int)
    requires
        0 <= n <= statuses.len(),
    ensures
        no_bail ==> goes_on(sequence_result(statuses, no_bail, n), no_bail),
        !no_bail ==> (goes_on(sequence_result(statuses, no_bail, n), no_bail) <==> forall|i: int|
            0 <= i < n ==> #[trigger] statuses[i] == Status::Passed),
        sequence_result(statuses, no_bail, n) == Status::Passed <==> forall|i: int|
            0 <= i < n ==> #[trigger] statuses[i] == Status::Passed,
    decreases n,
{
    if n > 0 {
        law_batches_fail_fast(statuses, no_bail, n - 1);
        assert(statuses[n - 1] == statuses[n - 1]);
    }
}

proof fn lemma_first_stop(statuses: Seq<Status>, from: int)
    requires
        0 <= from <= statuses.len(),
    ensures
        match first_stop(statuses, from) {
            Some(k) => from <= k < statuses.len() && statuses[k] != Status::Passed && forall|i: int|
                from <= i < k ==> #[trigger] statuses[i] == Status::Passed,
            None => forall|i: int|
                from <= i < statuses.len() ==> #[trigger] statuses[i] == Status::Passed,
        },
    decreases statuses.len() - from,
{
    if from < statuses.len() {
        lemma_first_stop(statuses, from + 1);
    }
}

/// In a sequential batch without `--no-bail`, with `k` the first item that does
/// not pass, the items up to `k` are started and the batch comes to what `k` came
/// to. Each item is either started or skipped: skipped are exactly those that the
/// batch does not proceed to, and what the started ones came to says which.
pub proof fn law_items_run_or_are_skipped(statuses: Seq<Status>, no_bail: bool, i: int)
    requires
        0 <= i < statuses.len(),
    ensures
        skipped_items(statuses, no_bail, statuses.len() as int).contains(i) <==> !goes_on(
            sequence_result(statuses, no_bail, i),
            no_bail,
        ),
        first_stop(statuses, 0) matches Some(k) ==> {
            &&& 0 <= k < statuses.len()
            &&& !no_bail ==> sequence_result(statuses, no_bail, statuses.len() as int)
                == statuses[k]
            &&& skipped_items(statuses.take(k + 1), no_bail, statuses.len() as int)
                == skipped_items(statuses, no_bail, statuses.len() as int)
        },
{
    let n = statuses.len() as int;
    lemma_first_stop(statuses, 0);
    law_batches_fail_fast(statuses, no_bail, i);
    let r = skipped_items(statuses, no_bail, n);
    if let Some(k) = first_stop(statuses, 0) {
        if !no_bail {
            lemma_stopped(statuses, k, n);
            if i > k {
                assert(r[i - k - 1] == i);
                assert(statuses[k] != Status::Passed);
            }
        }
        let started = statuses.take(k + 1);
        lemma_first_stop(started, 0);
        assert(started[k] == statuses[k]);
        match first_stop(started, 0) {
            Some(l) => {
                assert(started[l] == statuses[l]);
            },
            None => {},
        }
    }
}

proof fn lemma_stopped(statuses: Seq<Status>, k: int, n: int)
    requires
        0 <= k < n <= statuses.len(),
        statuses[k] != Status::Passed,
        forall|i: int| 0 <= i < k ==> #[trigger] statuses[i] == Status::Passed,
    ensures
        sequence_result(statuses, false, n) == statuses[k],
    decreases n,
{
    if n == k + 1 {
        law_batches_fail_fast(statuses, false, k);
    } else {
        lemma_stopped(statuses, k, n - 1);
    }
}

proof fn lemma_first_failed(statuses: Seq<Status>, from: int)
    requires
        0 <= from <= statuses.len(),
    ensures
        match first_failed(statuses, from) {
            Some(c) => exists|i: int|
                from <= i < statuses.len() && #[trigger] statuses[i] == Status::Failed(c),
            None => forall|i: int| from <= i < statuses.len() ==> !(#[trigger] statuses[i] is Failed),
        },
    decreases statuses.len() - from,
{
    if from < statuses.len() {
        lemma_first_failed(statuses, from + 1);
    }
}

/// A parallel batch passes exactly if every item did; and the code it fails with
/// is the code of one of its items.
pub proof fn law_parallel_batches(statuses: Seq<Status>)
    ensures
        combined(statuses) == Status::Passed <==> forall|i: int|
            0 <= i < statuses.len() ==> #[trigger] statuses[i] == Status::Passed,
        combined(statuses) is Failed ==> statuses.contains(combined(statuses)),
{
    lemma_first_failed(statuses, 0);
    if forall|i: int| 0 <= i < statuses.len() ==> #[trigger] statuses[i] == Status::Passed {
        if first_failed(statuses, 0) is Some {
            let c = first_failed(statuses, 0)->0;
            let i = choose|i: int|
                0 <= i < statuses.len() && #[trigger] statuses[i] == Status::Failed(c);
            assert(statuses[i] == Status::Passed);
        }
    }
    if combined(statuses) == Status::Passed {
        assert forall|i: int| 0 <= i < statuses.len() implies #[trigger] statuses[i]
            == Status::Passed by {
            assert(statuses.contains(statuses[i]));
            assert(!(statuses[i] is Failed));
        }
    }
}

/// The exit code: `0` exactly if nothing failed and nobody interrupted the run.
/// The first failing command's own code is never replaced by a later one, nor by
/// a failure of the runner itself; an interrupt outranks it.
pub proof fn law_first_failure_wins(
    p: ProgressView,
    label: Seq<char>,
    wait: WaitView,
    dur: Option<ElapsedView>,
)
    requires
        p.first_failure != Some(0i32),
    ensures
        run_code(p) == 0 <==> !p.interrupted && p.first_failure is None && p.runner_error is None,
        run_code(with_interrupt(p)) == 130,
        after_leaf(p, label, wait, dur).0.first_failure != Some(0i32),
        p.first_failure is Some ==> run_code(after_leaf(p, label, wait, dur).0) == run_code(p),
        p.first_failure is None && !p.interrupted && wait is Exited && wait->Exited_0 != 0
            ==> run_code(after_leaf(p, label, wait, dur).0) == wait->Exited_0,
{
}

/// After a failure nothing more is started, unless the run is to be completed;
/// after a failure of the runner itself, and after an interrupt, never.
pub proof fn law_failures_abort(
    p: ProgressView,
    label: Seq<char>,
    wait: WaitView,
    dur: Option<ElapsedView>,
)
    ensures
        ({
            let (after, status) = after_leaf(p, label, wait, dur);
            &&& p.aborted ==> after.aborted
            &&& status is Failed && !p.no_bail ==> after.aborted
            &&& status is Failed && p.no_bail ==> after.aborted == p.aborted
            &&& status is Runner ==> after.aborted
            &&& status is Passed ==> after.aborted == p.aborted
        }),
        with_interrupt(p).aborted,
{
}

/// The steps of a task, and of a task in a package, end with the unit's own work,
/// and nothing before the last step is that: so a command starts only after every
/// dependency, and everything its package depends on, has passed, and never once
/// the run has been given up.
pub proof fn law_own_work_comes_last(
    cfg: ConfigView,
    t: TaskView,
    key: Seq<char>,
    pkgs: Seq<PackageView>,
    index: int,
    skip: Option<Seq<Seq<char>>>,
    status: Status,
)
    ensures
        forall|i: int|
            0 <= i < steps_of_task(cfg, key).len() - 1 ==> !is_own(
                #[trigger] steps_of_task(cfg, key)[i],
            ),
        config::find_task(cfg.tasks, key) is Some ==> is_own(steps_of_task(cfg, key).last()),
        forall|i: int|
            0 <= i < steps_of_node(cfg.tasks, t, pkgs, index, skip).len() - 1 ==> !is_own(
                #[trigger] steps_of_node(cfg.tasks, t, pkgs, index, skip)[i],
            ),
        !in_list(skip, pkgs[index].rel) ==> steps_of_node(
            cfg.tasks,
            t,
            pkgs,
            index,
            skip,
        ).last() is Command,
        forall|at: int, aborted: bool|
            (#[trigger] next_step(
                steps_of_node(cfg.tasks, t, pkgs, index, skip),
                at,
                status,
                aborted,
            )) is Perform && is_own(steps_of_node(cfg.tasks, t, pkgs, index, skip)[at]) ==> !aborted
                && status == Status::Passed,
{
    lemma_upstream_steps(cfg.tasks, t, pkggraph::deps(pkgs, index), t.deps.len() as int);
}

proof fn lemma_upstream_steps(tasks: Seq<TaskView>, t: TaskView, nodes: Seq<int>, n: int)
    ensures
        forall|i: int|
            0 <= i < upstream_steps(tasks, t, nodes, n).len() ==> !is_own(
                #[trigger] upstream_steps(tasks, t, nodes, n)[i],
            ),
    decreases n,
{
    if n > 0 {
        lemma_upstream_steps(tasks, t, nodes, n - 1);
        let all = upstream_steps(tasks, t, nodes, n);
        let before = upstream_steps(tasks, t, nodes, n - 1);
        assert forall|i: int| 0 <= i < all.len() implies !is_own(#[trigger] all[i]) by {
            if i < before.len() {
                assert(all[i] == before[i]);
            }
        }
    }
}

/// The step that a `^name` dependency asks for.
pub proof fn lemma_upstream_step_at(
    tasks: Seq<TaskView>,
    t: TaskView,
    nodes: Seq<int>,
    d: int,
    n: int,
) -> (i: int)
    requires
        0 <= d < n <= t.deps.len(),
        config::upstream(t.deps[d]) is Some,
    ensures
        0 <= i < upstream_steps(tasks, t, nodes, n).len(),
        ({
            let step = upstream_steps(tasks, t, nodes, n)[i];
            let name = config::upstream(t.deps[d])->0;
            if config::find_task(tasks, name) is Some {
                step == (StepView::Upstream { task: name, nodes, parallel: t.parallel })
            } else {
                step is Fail
            }
        }),
    decreases n,
{
    let all = upstream_steps(tasks, t, nodes, n);
    let before = upstream_steps(tasks, t, nodes, n - 1);
    if d == n - 1 {
        all.len() - 1
    } else {
        let i = lemma_upstream_step_at(tasks, t, nodes, d, n - 1);
        assert(all[i] == before[i]);
        i
    }
}

/// `^name` means: before a task runs in a package, `name` runs in every package
/// that this one depends on, whether it was selected or not.
pub proof fn law_upstream_comes_first(
    tasks: Seq<TaskView>,
    t: TaskView,
    pkgs: Seq<PackageView>,
    index: int,
    skip: Option<Seq<Seq<char>>>,
    d: int,
)
    requires
        0 <= d < t.deps.len(),
        config::upstream(t.deps[d]) matches Some(name) && config::find_task(tasks, name) is Some,
        !in_list(skip, pkgs[index].rel),
        pkggraph::deps(pkgs, index).len() > 0,
    ensures
        exists|i: int|
            0 <= i < steps_of_node(tasks, t, pkgs, index, skip).len() - 1 && (
            #[trigger] steps_of_node(tasks, t, pkgs, index, skip)[i]) == (StepView::Upstream {
                task: config::upstream(t.deps[d])->0,
                nodes: pkggraph::deps(pkgs, index),
                parallel: t.parallel,
            }),
{
    let nodes = pkggraph::deps(pkgs, index);
    let step = StepView::Upstream {
        task: config::upstream(t.deps[d])->0,
        nodes,
        parallel: t.parallel,
    };
    let j = lemma_upstream_step_at(tasks, t, nodes, d, t.deps.len() as int);
    let i = deps_steps(t).len() + j;
    assert(steps_of_node(tasks, t, pkgs, index, skip)[i] == step);
}

/// What is forwarded reaches the last command of a sequence and no other, and
/// is never taken as a pattern.
pub proof fn law_forwarded_arguments(p: ExecPlanView, extra: Seq<Seq<char>>)
    ensures
        appended(p, extra).rest.len() == p.rest.len(),
        p.rest.len() > 0 ==> appended(p, extra).first == p.first,
        forall|i: int|
            0 <= i < p.rest.len() - 1 ==> #[trigger] appended(p, extra).rest[i] == p.rest[i],
        p.rest.len() == 0 ==> appended(p, extra).first == p.first + literals(extra),
        p.rest.len() > 0 ==> appended(p, extra).rest.last().1 == p.rest.last().1 + literals(extra),
        forall|i: int| 0 <= i < extra.len() ==> (#[trigger] literals(extra)[i]) is Literal,
{
}

proof fn lemma_kept(pkgs: Seq<PackageView>, sel: SelectionView, v: Seq<int>, n: int)
    requires
        0 <= n <= v.len(),
    ensures
        forall|i: int|
            0 <= i < kept(pkgs, sel, v, n).len() ==> v.contains(
                #[trigger] kept(pkgs, sel, v, n)[i],
            ) && may_select(sel, pkgs[kept(pkgs, sel, v, n)[i]].rel),
        forall|k: int|
            0 <= k < n && may_select(sel, pkgs[#[trigger] v[k]].rel) ==> kept(
                pkgs,
                sel,
                v,
                n,
            ).contains(v[k]),
    decreases n,
{
    if n > 0 {
        lemma_kept(pkgs, sel, v, n - 1);
        let all = kept(pkgs, sel, v, n);
        let before = kept(pkgs, sel, v, n - 1);
        assert forall|k: int|
            0 <= k < n && may_select(sel, pkgs[#[trigger] v[k]].rel) implies all.contains(v[k]) by {
            if k == n - 1 {
                assert(all.last() == v[k]);
            } else {
                assert(before.contains(v[k]));
                let i = choose|i: int| 0 <= i < before.len() && before[i] == v[k];
                assert(all[i] == v[k]);
            }
        }
        assert forall|i: int| 0 <= i < all.len() implies v.contains(#[trigger] all[i])
            && may_select(sel, pkgs[all[i]].rel) by {
            if i < before.len() {
                assert(all[i] == before[i]);
            }
        }
    }
}

/// `--since` and `--resume-from` only narrow what the entries choose, and they
/// compose: a package is run in exactly if it is chosen and passes both.
pub proof fn law_selection_narrows(pkgs: Seq<PackageView>, sel: SelectionView, v: Seq<int>, x: int)
    ensures
        kept(pkgs, sel, v, v.len() as int).contains(x) <==> v.contains(x) && may_select(
            sel,
            pkgs[x].rel,
        ),
{
    lemma_kept(pkgs, sel, v, v.len() as int);
    let all = kept(pkgs, sel, v, v.len() as int);
    if all.contains(x) {
        let i = choose|i: int| 0 <= i < all.len() && all[i] == x;
        assert(v.contains(all[i]));
    }
    if v.contains(x) && may_select(sel, pkgs[x].rel) {
        let k = choose|k: int| 0 <= k < v.len() && v[k] == x;
        assert(all.contains(v[k]));
    }
}

proof fn lemma_before_item(v: Seq<int>, x: int)
    ensures
        0 <= before_item(v, x) <= v.len(),
        forall|i: int| 0 <= i < before_item(v, x) ==> #[trigger] v[i] != x,
        before_item(v, x) < v.len() ==> v[before_item(v, x)] == x,
    decreases v.len(),
{
    if v.len() > 0 && v[0] != x {
        lemma_before_item(v.drop_first(), x);
        assert forall|i: int| 0 <= i < before_item(v, x) implies #[trigger] v[i] != x by {
            if i > 0 {
                assert(v.drop_first()[i - 1] == v[i]);
            }
        }
    }
}

/// The packages that a resumed run takes as done are exactly those ordered before
/// the resume point; the resume point itself is run.
pub proof fn law_resume_point_runs(order: Seq<int>, at: int)
    requires
        order.contains(at),
    ensures
        ({
            let done = order.take(before_item(order, at));
            &&& !done.contains(at)
            &&& order[done.len() as int] == at
        }),
{
    lemma_before_item(order, at);
    let done = order.take(before_item(order, at));
    let i = choose|i: int| 0 <= i < order.len() && order[i] == at;
    assert(before_item(order, at) <= i);
    if done.contains(at) {
        let k = choose|k: int| 0 <= k < done.len() && done[k] == at;
        assert(order[k] == at);
    }
}

/// A `^name` is a dependency that begins with `^`, and no other is one.
proof fn lemma_marked(dep: Seq<char>)
    ensures
        config::upstream(dep) is Some <==> dep.len() > 0 && dep[0] == '^',
        config::upstream(dep) matches Some(name) ==> dep == seq!['^'] + name && name == dep.skip(1),
{
    if dep.len() > 0 && dep[0] == '^' {
        assert(dep =~= seq!['^'] + dep.skip(1));
    }
}

proof fn lemma_kept_is_filter(pkgs: Seq<PackageView>, sel: SelectionView, v: Seq<int>, n: int)
    requires
        0 <= n <= v.len(),
    ensures
        kept(pkgs, sel, v, n) == v.take(n).filter(
            |x: int|
                (sel.affected is Some ==> sel.affected->0.contains(pkgs[x].rel)) && (sel.skip is Some
                    ==> !sel.skip->0.contains(pkgs[x].rel)),
        ),
    decreases n,
{
    reveal(Seq::filter);
    if n > 0 {
        lemma_kept_is_filter(pkgs, sel, v, n - 1);
        assert(v.take(n).drop_last() =~= v.take(n - 1));
        assert(v.take(n).last() == v[n - 1]);
    } else {
        assert(v.take(0) =~= Seq::empty());
    }
}

/// A task that waits for other packages never treats its packages as independent:
/// where one of its dependencies, at whatever position, begins with `^`, the fan-out
/// is in order, unless no package is left or the packages have no order.
pub proof fn law_upstream_deps_order_the_fan_out(
    t: TaskView,
    pkgs: Seq<PackageView>,
    sel: SelectionView,
    v: Seq<int>,
    i: int,
    k: int,
)
    requires
        0 <= i < t.deps.len(),
        t.deps[i].len() > 0,
        t.deps[i][0] == '^',
        0 <= k < v.len(),
        sel.affected is Some ==> sel.affected->0.contains(pkgs[v[k]].rel),
        sel.skip is Some ==> !sel.skip->0.contains(pkgs[v[k]].rel),
    ensures
        !(fan_out_of(t, pkgs, sel, Ok(v)) is Flat),
        pkggraph::topo(pkgs) is Ok ==> fan_out_of(t, pkgs, sel, Ok(v)) is Ordered,
        pkggraph::topo(pkgs) is Err ==> fan_out_of(t, pkgs, sel, Ok(v)) is Fail,
{
    lemma_marked(t.deps[i]);
    lemma_kept(pkgs, sel, v, v.len() as int);
    assert(may_select(sel, pkgs[v[k]].rel));
    assert(kept(pkgs, sel, v, v.len() as int).contains(v[k]));
}

/// A fan-out runs in the packages that the entries choose and that neither filter
/// keeps it from, in the order in which they were chosen, each once for each choice.
/// It is flat exactly if no dependency begins with `^`, and fails only if the choice
/// or the order of the packages does.
pub proof fn law_fan_out_runs_what_is_selected(
    t: TaskView,
    pkgs: Seq<PackageView>,
    sel: SelectionView,
    choice: Result<Seq<int>, ErrorView>,
)
    ensures
        choice matches Err(e) ==> fan_out_of(t, pkgs, sel, choice) == FanOutView::Fail(
            match e {
                ErrorView::Config(m) => m,
                ErrorView::Runtime(m) => m,
            },
        ),
        choice matches Ok(v) ==> {
            let left = v.filter(
                |x: int|
                    (sel.affected is Some ==> sel.affected->0.contains(pkgs[x].rel)) && (
                    sel.skip is Some ==> !sel.skip->0.contains(pkgs[x].rel)),
            );
            let marked = exists|i: int|
                0 <= i < t.deps.len() && (#[trigger] t.deps[i]).len() > 0 && t.deps[i][0] == '^';
            match fan_out_of(t, pkgs, sel, choice) {
                FanOutView::Nothing(_) => left.len() == 0,
                FanOutView::Flat(w) => w == left && left.len() > 0 && !marked,
                FanOutView::Ordered(w) => w == left && left.len() > 0 && marked && pkggraph::topo(
                    pkgs,
                ) is Ok,
                FanOutView::Fail(_) => left.len() > 0 && marked && pkggraph::topo(pkgs) is Err,
            }
        },
{
    if let Ok(v) = choice {
        lemma_kept_is_filter(pkgs, sel, v, v.len() as int);
        assert(v.take(v.len() as int) =~= v);
        if needs_order(t) {
            let i = choose|i: int|
                0 <= i < t.deps.len() && config::upstream(#[trigger] t.deps[i]) is Some;
            lemma_marked(t.deps[i]);
            assert(t.deps[i].len() > 0 && t.deps[i][0] == '^');
        }
        if exists|i: int|
            0 <= i < t.deps.len() && (#[trigger] t.deps[i]).len() > 0 && t.deps[i][0] == '^' {
            let i = choose|i: int|
                0 <= i < t.deps.len() && (#[trigger] t.deps[i]).len() > 0 && t.deps[i][0] == '^';
            lemma_marked(t.deps[i]);
            assert(config::upstream(t.deps[i]) is Some);
        }
    }
}

/// A sequence of commands goes on at the first command that its separator lets run:
/// behind `;` every command, behind `&&` after a success, behind `||` after a
/// failure. It ends only where there is none, as the last command that ran.
pub proof fn law_sequences_run_what_separators_allow(
    rest: Seq<(Sep, Seq<ArgView>)>,
    at: int,
    last: i32,
)
    requires
        0 < at,
    ensures
        match shell_step(rest, at, last, false) {
            ShellNextView::Run(k) => {
                &&& at <= k <= rest.len()
                &&& match rest[k - 1].0 {
                    Sep::Semi => true,
                    Sep::And => last == 0,
                    Sep::Or => last != 0,
                }
                &&& forall|j: int|
                    at - 1 <= j < k - 1 ==> match (#[trigger] rest[j]).0 {
                        Sep::Semi => false,
                        Sep::And => last != 0,
                        Sep::Or => last == 0,
                    }
            },
            ShellNextView::Finish(w) => {
                &&& w == WaitView::Exited(last)
                &&& forall|j: int|
                    at - 1 <= j < rest.len() ==> match (#[trigger] rest[j]).0 {
                        Sep::Semi => false,
                        Sep::And => last != 0,
                        Sep::Or => last == 0,
                    }
            },
        },
    decreases rest.len() - at + 1,
{
    if at <= rest.len() && !rest[at - 1].0.spec_proceeds(last) {
        law_sequences_run_what_separators_allow(rest, at + 1, last);
    }
}

/// A command behind `;` always runs: where one is still to come, the sequence does
/// not end before it.
pub proof fn law_a_semicolon_always_goes_on(
    rest: Seq<(Sep, Seq<ArgView>)>,
    at: int,
    last: i32,
    j: int,
)
    requires
        0 < at <= j + 1,
        j < rest.len(),
        rest[j].0 is Semi,
    ensures
        shell_step(rest, at, last, false) matches ShellNextView::Run(k) && at <= k <= j + 1,
{
    law_sequences_run_what_separators_allow(rest, at, last);
}

/// The first command of a sequence is always started. When the run has been given
/// up nothing more of it is, and a sequence with nothing left ends as it would have.
pub proof fn law_sequences_end_when_given_up(
    rest: Seq<(Sep, Seq<ArgView>)>,
    at: int,
    last: i32,
    aborted: bool,
)
    ensures
        at == 0 ==> shell_step(rest, at, last, aborted) == ShellNextView::Run(0),
        0 < at <= rest.len() ==> shell_step(rest, at, last, true) == ShellNextView::Finish(
            WaitView::Killed,
        ),
        at > rest.len() ==> shell_step(rest, at, last, aborted) == ShellNextView::Finish(
            WaitView::Exited(last),
        ),
{
}

proof fn lemma_ordinary_is_filter(deps: Seq<Seq<char>>, n: int)
    requires
        0 <= n <= deps.len(),
    ensures
        graph::ordinary(deps, n) == deps.take(n).filter(
            |d: Seq<char>| !(d.len() > 0 && d[0] == '^'),
        ),
    decreases n,
{
    reveal(Seq::filter);
    if n > 0 {
        lemma_ordinary_is_filter(deps, n - 1);
        lemma_marked(deps[n - 1]);
        assert(deps.take(n).drop_last() =~= deps.take(n - 1));
        assert(deps.take(n).last() == deps[n - 1]);
    } else {
        assert(deps.take(0) =~= Seq::empty());
    }
}

/// A task first runs its plain dependencies, all of them in their order as one
/// batch, and then does its own work: in its packages where it names any, nothing
/// where it has dependencies and neither `run` nor `delegate`, else its command.
pub proof fn law_plain_deps_come_first(cfg: ConfigView, key: Seq<char>, t: TaskView)
    requires
        config::find_task(cfg.tasks, key) == Some(t),
    ensures
        ({
            let steps = steps_of_task(cfg, key);
            let plain = t.deps.filter(|d: Seq<char>| !(d.len() > 0 && d[0] == '^'));
            let own = steps[steps.len() - 1];
            &&& plain.len() == 0 ==> steps.len() == 1
            &&& plain.len() > 0 ==> steps.len() == 2 && steps[0] == (StepView::Deps {
                keys: plain,
                parallel: t.parallel,
            })
            &&& own is FanOut <==> t.packages is Some
            &&& own is Nothing <==> t.packages is None && t.run is None && t.delegate is None
                && t.deps.len() > 0
            &&& own is Command || own is FanOut || own is Nothing
        }),
{
    lemma_ordinary_is_filter(t.deps, t.deps.len() as int);
    assert(t.deps.take(t.deps.len() as int) =~= t.deps);
}

proof fn lemma_upstream_steps_are(tasks: Seq<TaskView>, t: TaskView, nodes: Seq<int>, n: int)
    requires
        0 <= n <= t.deps.len(),
    ensures
        ({
            let marked = t.deps.take(n).filter(|d: Seq<char>| d.len() > 0 && d[0] == '^');
            let steps = upstream_steps(tasks, t, nodes, n);
            &&& steps.len() == marked.len()
            &&& forall|j: int|
                0 <= j < steps.len() ==> if config::find_task(tasks, marked[j].skip(1)) is Some {
                    #[trigger] steps[j] == (StepView::Upstream {
                        task: marked[j].skip(1),
                        nodes,
                        parallel: t.parallel,
                    })
                } else {
                    steps[j] is Fail
                }
        }),
    decreases n,
{
    reveal(Seq::filter);
    if n > 0 {
        lemma_upstream_steps_are(tasks, t, nodes, n - 1);
        lemma_marked(t.deps[n - 1]);
        assert(t.deps.take(n).drop_last() =~= t.deps.take(n - 1));
        assert(t.deps.take(n).last() == t.deps[n - 1]);
    } else {
        assert(t.deps.take(0) =~= Seq::empty());
    }
}

/// What a task does in a package that is not taken as done: its plain dependencies,
/// then for each `^name`, in order, `name` in every package that this one depends
/// on, then its command. In a package that depends on none there is nothing to do
/// for a `^name`; in one that is taken as done there is nothing to do at all.
pub proof fn law_steps_in_a_package(
    tasks: Seq<TaskView>,
    t: TaskView,
    pkgs: Seq<PackageView>,
    index: int,
    skip: Option<Seq<Seq<char>>>,
)
    ensures
        ({
            let steps = steps_of_node(tasks, t, pkgs, index, skip);
            let plain = t.deps.filter(|d: Seq<char>| !(d.len() > 0 && d[0] == '^'));
            let marked = t.deps.filter(|d: Seq<char>| d.len() > 0 && d[0] == '^');
            let nodes = pkggraph::deps(pkgs, index);
            let first: int = if plain.len() > 0 {
                1
            } else {
                0
            };
            let between: int = if nodes.len() > 0 {
                marked.len() as int
            } else {
                0
            };
            if skip is Some && skip->0.contains(pkgs[index].rel) {
                steps == seq![StepView::Satisfied]
            } else {
                &&& steps.len() == first + between + 1
                &&& plain.len() > 0 ==> steps[0] == (StepView::Deps {
                    keys: plain,
                    parallel: t.parallel,
                })
                &&& forall|j: int|
                    0 <= j < between ==> if config::find_task(tasks, (#[trigger] marked[j]).skip(1)) is Some {
                        steps[first + j] == (StepView::Upstream {
                            task: marked[j].skip(1),
                            nodes,
                            parallel: t.parallel,
                        })
                    } else {
                        steps[first + j] is Fail
                    }
                &&& steps[steps.len() - 1] is Command
            }
        }),
{
    let nodes = pkggraph::deps(pkgs, index);
    lemma_ordinary_is_filter(t.deps, t.deps.len() as int);
    lemma_upstream_steps_are(tasks, t, nodes, t.deps.len() as int);
    assert(t.deps.take(t.deps.len() as int) =~= t.deps);
    let up = upstream_steps(tasks, t, nodes, t.deps.len() as int);
    let marked = t.deps.filter(|d: Seq<char>| d.len() > 0 && d[0] == '^');
    let steps = steps_of_node(tasks, t, pkgs, index, skip);
    let first = deps_steps(t).len() as int;
    if !in_list(skip, pkgs[index].rel) && nodes.len() > 0 {
        assert forall|j: int| 0 <= j < marked.len() implies if config::find_task(
            tasks,
            (#[trigger] marked[j]).skip(1),
        ) is Some {
            steps[first + j] == (StepView::Upstream {
                task: marked[j].skip(1),
                nodes,
                parallel: t.parallel,
            })
        } else {
            steps[first + j] is Fail
        } by {
            assert(steps[first + j] == up[j]);
        }
    }
}

/// A unit takes its steps one after the other for as long as each passes, and comes
/// to what the first one that did not came to. Once the run has been given up, a
/// unit that has not begun, and its own work, are skipped, and nothing else is.
pub proof fn law_steps_are_taken_in_order(
    steps: Seq<StepView>,
    at: int,
    status: Status,
    aborted: bool,
)
    requires
        0 <= at < usize::MAX,
    ensures
        status != Status::Passed ==> next_step(steps, at, status, aborted) == Next::Finish(status),
        status == Status::Passed && at >= steps.len() ==> next_step(steps, at, status, aborted)
            == Next::Finish(Status::Passed),
        status == Status::Passed && at < steps.len() && !aborted ==> next_step(
            steps,
            at,
            status,
            aborted,
        ) == Next::Perform(at as usize),
        status == Status::Passed && at < steps.len() && aborted ==> next_step(
            steps,
            at,
            status,
            aborted,
        ) == if at == 0 || steps[at] is FanOut || steps[at] is Nothing || steps[at] is Command {
            Next::Finish(Status::Skipped)
        } else {
            Next::Perform(at as usize)
        },
{
}

/// With `--no-bail` a sequential batch comes to what the last item that did not pass
/// came to; without it, to what the first one did.
pub proof fn law_what_a_batch_comes_to(statuses: Seq<Status>, no_bail: bool, k: int, n: int)
    requires
        0 <= k < n <= statuses.len(),
        statuses[k] != Status::Passed,
        no_bail ==> forall|i: int| k < i < n ==> #[trigger] statuses[i] == Status::Passed,
        !no_bail ==> forall|i: int| 0 <= i < k ==> #[trigger] statuses[i] == Status::Passed,
    ensures
        sequence_result(statuses, no_bail, n) == statuses[k],
    decreases n,
{
    if !no_bail {
        lemma_stopped(statuses, k, n);
    } else if n > k + 1 {
        law_what_a_batch_comes_to(statuses, no_bail, k, n - 1);
        assert(statuses[n - 1] == Status::Passed);
    }
}

/// What a parallel batch comes to: a failure of the runner before a failed command,
/// the code of the first of those before an item that was skipped.
pub proof fn law_parallel_batches_rank(statuses: Seq<Status>, k: int)
    requires
        0 <= k < statuses.len(),
    ensures
        statuses[k] == Status::Runner ==> combined(statuses) == Status::Runner,
        statuses[k] is Failed && !statuses.contains(Status::Runner) && (forall|i: int|
            0 <= i < k ==> !(#[trigger] statuses[i] is Failed)) ==> combined(statuses)
            == statuses[k],
        statuses[k] == Status::Skipped && (forall|i: int|
            0 <= i < statuses.len() ==> (#[trigger] statuses[i]) == Status::Skipped || statuses[i]
                == Status::Passed) ==> combined(statuses) == Status::Skipped,
        combined(statuses) == Status::Skipped || combined(statuses) == Status::Runner
            ==> statuses.contains(combined(statuses)),
{
    if statuses[k] is Failed && (forall|i: int|
        0 <= i < k ==> !(#[trigger] statuses[i] is Failed)) {
        lemma_first_failed_at(statuses, 0, k);
    }
    lemma_first_failed(statuses, 0);
    if statuses[k] == Status::Skipped && (forall|i: int|
        0 <= i < statuses.len() ==> (#[trigger] statuses[i]) == Status::Skipped || statuses[i]
            == Status::Passed) {
        assert(!statuses.contains(Status::Runner));
        assert(first_failed(statuses, 0) is None);
        assert(statuses.contains(statuses[k]));
    }
}

proof fn lemma_first_failed_at(statuses: Seq<Status>, from: int, k: int)
    requires
        0 <= from <= k < statuses.len(),
        statuses[k] is Failed,
        forall|i: int| from <= i < k ==> !(#[trigger] statuses[i] is Failed),
    ensures
        first_failed(statuses, from) == Some(statuses[k]->Failed_0),
    decreases k - from,
{
    if from < k {
        assert(!(statuses[from] is Failed));
        lemma_first_failed_at(statuses, from + 1, k);
    }
}

/// Every command that ended leaves one result, under its label and with its time:
/// passed on code 0, failed with any other code, skipped if it was ended, and failed
/// with 64 if it could not be started. What became of the unit says the same.
pub proof fn law_results_are_recorded(
    p: ProgressView,
    label: Seq<char>,
    wait: WaitView,
    dur: Option<ElapsedView>,
)
    ensures
        ({
            let (after, status) = after_leaf(p, label, wait, dur);
            let kind = match wait {
                WaitView::Exited(c) => if c == 0 {
                    ResultKind::Passed
                } else {
                    ResultKind::Failed(c)
                },
                WaitView::Killed => ResultKind::Skipped,
                WaitView::SpawnFailed(_) => ResultKind::Failed(64),
            };
            &&& after.results.len() == p.results.len() + 1
            &&& after.results.take(p.results.len() as int) == p.results
            &&& after.results[p.results.len() as int] == (ResultView { label, kind, dur })
            &&& status == Status::Passed <==> wait == WaitView::Exited(0)
            &&& wait is Exited && wait->Exited_0 != 0 ==> status == Status::Failed(wait->Exited_0)
            &&& wait is Killed ==> status == Status::Skipped
            &&& wait is SpawnFailed ==> status == Status::Runner
            &&& after.interrupted == p.interrupted && after.no_bail == p.no_bail
        }),
{
    let after = after_leaf(p, label, wait, dur).0;
    assert(after.results.take(p.results.len() as int) =~= p.results);
}

/// The first thing that kept the runner from going on is what is reported, and the
/// run ends with 64, unless a command had failed or the run was interrupted.
pub proof fn law_runner_errors_count(
    p: ProgressView,
    first: Seq<char>,
    second: Seq<char>,
    code: i32,
)
    ensures
        p.runner_error is None ==> with_runner_error(p, first).runner_error == Some(first),
        with_runner_error(with_runner_error(p, first), second).runner_error == with_runner_error(
            p,
            first,
        ).runner_error,
        !p.interrupted && p.first_failure is None ==> run_code(with_runner_error(p, first)) == 64,
        p.interrupted ==> run_code(p) == 130,
        !p.interrupted ==> (p.first_failure matches Some(c) ==> run_code(p) == c),
        with_failure(p, code).results == p.results && with_runner_error(p, first).results == p.results,
        with_runner_error(p, first).first_failure == p.first_failure,
{
}

/// A unit that is left out counts as skipped for whoever asks for it, unless it was
/// asked for before; then nothing changes.
pub proof fn law_left_out_units_are_skipped(slots: Slots, key: Seq<char>, other: Seq<char>)
    ensures
        slot(slots, key) is None ==> slot(left_out(slots, key), key) == Some(Some(Status::Skipped)),
        slot(slots, key) is Some ==> left_out(slots, key) == slots,
        other != key ==> slot(left_out(slots, key), other) == slot(slots, other),
        slot(slots, key) is None ==> slot(claimed(slots, key), key) == Some(None::<Status>),
        other != key ==> slot(claimed(slots, key), other) == slot(slots, other),
        slot(Seq::empty(), key) is None,
{
    lemma_slot_push(slots, (key, None), key);
    lemma_slot_push(slots, (key, None), other);
    lemma_slot_finished(claimed(slots, key), key, Status::Skipped, key);
    lemma_slot_finished(claimed(slots, key), key, Status::Skipped, other);
}

/// What is forwarded keeps its order and its words.
pub proof fn law_forwarded_words_are_kept(words: Seq<Seq<char>>, i: int)
    requires
        0 <= i < words.len(),
    ensures
        literals(words).len() == words.len(),
        literals(words)[i] == ArgView::Literal(words[i]),
{
}

/// What a task spawns without a `run` string: the program and the arguments that its
/// form gives, then its `args`, then what the command line forwards. A dry run shows
/// just these words.
pub proof fn law_what_is_spawned(
    t: TaskView,
    dir: Seq<char>,
    markers: Markers,
    vars: Vars,
    passthrough: Seq<Seq<char>>,
)
    ensures
        resolve::invocation(t, dir, detect::ecosystem_of(markers)) matches Ok(
            InvocationView::Direct { program, args },
        ) ==> {
            &&& action_of(t, dir, markers, vars, passthrough) == Ok::<ActionView, Seq<char>>(
                ActionView::Spawn { program, args: args + t.args + passthrough },
            )
            &&& command_text(t, dir, markers, passthrough) == Ok::<Seq<char>, Seq<char>>(
                text::joined(seq![program] + (args + t.args + passthrough), " "@),
            )
        },
        resolve::invocation(t, dir, detect::ecosystem_of(markers)) is Err ==> action_of(
            t,
            dir,
            markers,
            vars,
            passthrough,
        ) is Err && command_text(t, dir, markers, passthrough) is Err,
{
    if let Ok(InvocationView::Direct { program, args }) = resolve::invocation(
        t,
        dir,
        detect::ecosystem_of(markers),
    ) {
        assert(args + (t.args + passthrough) =~= args + t.args + passthrough);
        assert(seq![program] + args + (t.args + passthrough) =~= seq![program] + (args + t.args
            + passthrough));
    }
}

/// What a task with a `run` string runs: its commands, with the task's `args` and
/// then what the command line forwards as words behind the last one. A dry run shows
/// the string as it is written, and then the same words.
pub proof fn law_what_a_run_string_runs(
    t: TaskView,
    dir: Seq<char>,
    markers: Markers,
    vars: Vars,
    passthrough: Seq<Seq<char>>,
    run: Seq<char>,
)
    requires
        t.delegate is None,
        t.run == Some(run),
    ensures
        shell::plan(run) matches Ok(PlanView::Direct(argv)) ==> {
            let p = (action_of(t, dir, markers, vars, passthrough)->Ok_0)->Shell_0;
            &&& action_of(t, dir, markers, vars, passthrough) is Ok
            &&& action_of(t, dir, markers, vars, passthrough)->Ok_0 is Shell
            &&& p.rest.len() == 0
            &&& p.first.len() == argv.len() + t.args.len() + passthrough.len()
            &&& forall|i: int| 0 <= i < argv.len() ==> #[trigger] p.first[i] == ArgView::Literal(argv[i])
            &&& forall|i: int|
                0 <= i < t.args.len() ==> p.first[argv.len() + i] == ArgView::Literal(
                    #[trigger] t.args[i],
                )
            &&& forall|i: int|
                0 <= i < passthrough.len() ==> p.first[argv.len() + t.args.len() + i]
                    == ArgView::Literal(#[trigger] passthrough[i])
        },
        shell::plan(run) is Ok ==> command_text(t, dir, markers, passthrough) == Ok::<
            Seq<char>,
            Seq<char>,
        >(text::joined(seq![run] + t.args + passthrough, " "@)),
        shell::plan(run) is Err ==> action_of(t, dir, markers, vars, passthrough) is Err,
{
    if let Ok(PlanView::Direct(argv)) = shell::plan(run) {
        let p = (action_of(t, dir, markers, vars, passthrough)->Ok_0)->Shell_0;
        assert(p.first == literals(argv) + literals(t.args + passthrough));
    }
    assert(seq![run] + (t.args + passthrough) =~= seq![run] + t.args + passthrough);
}

proof fn lemma_rel_index(pkgs: Seq<PackageView>, rel: Seq<char>)
    ensures
        -1 <= pkggraph::rel_index(pkgs, rel) < pkgs.len(),
        pkggraph::rel_index(pkgs, rel) >= 0 ==> pkgs[pkggraph::rel_index(pkgs, rel)].rel == rel,
        forall|i: int|
            pkggraph::rel_index(pkgs, rel) < i < pkgs.len() ==> (#[trigger] pkgs[i]).rel != rel,
    decreases pkgs.len(),
{
    if pkgs.len() > 0 && pkgs.last().rel != rel {
        lemma_rel_index(pkgs.drop_last(), rel);
        assert forall|i: int| pkggraph::rel_index(pkgs, rel) < i < pkgs.len() implies (
        #[trigger] pkgs[i]).rel != rel by {
            if i < pkgs.len() - 1 {
                assert(pkgs.drop_last()[i] == pkgs[i]);
            }
        }
    }
}

/// Resuming from a package takes as done just the packages that come before it in
/// the order in which the workspace is built. The package is given by its path, or
/// by its name where no package has that path; what is neither is an error.
pub proof fn law_resuming(pkgs: Seq<PackageView>, key: Seq<char>, order: Seq<int>, p: int)
    requires
        pkggraph::topo(pkgs) == Ok::<Seq<int>, ErrorView>(order),
        0 <= p < order.len(),
        order.no_duplicates(),
    ensures
        ({
            let x = order[p];
            let by_path = 0 <= x < pkgs.len() && pkgs[x].rel == key && forall|i: int|
                0 <= i < pkgs.len() && i != x ==> (#[trigger] pkgs[i]).rel != key;
            let by_name = 0 <= x < pkgs.len() && pkgs[x].name == Some(key) && (forall|i: int|
                0 <= i < pkgs.len() ==> (#[trigger] pkgs[i]).rel != key) && (forall|i: int|
                0 <= i < x ==> (#[trigger] pkgs[i]).name != Some(key));
            by_path || by_name ==> resumed(pkgs, key) == Ok::<Seq<Seq<char>>, ErrorView>(
                Seq::new(p as nat, |k: int| pkgs[order[k]].rel),
            )
        }),
        (forall|i: int| 0 <= i < pkgs.len() ==> (#[trigger] pkgs[i]).rel != key) && (forall|i: int|
            0 <= i < pkgs.len() ==> (#[trigger] pkgs[i]).name != Some(key)) ==> resumed(
            pkgs,
            key,
        ) is Err,
{
    let x = order[p];
    lemma_rel_index(pkgs, key);
    pkggraph::lemma_name_index(pkgs, key);
    lemma_before_item(order, x);
    if before_item(order, x) != p {
        if before_item(order, x) < p {
            assert(order[before_item(order, x)] == order[p]);
        } else {
            assert(order[p] != x);
        }
    }
    let owed = Seq::new(p as nat, |k: int| pkgs[order[k]].rel);
    assert(pkggraph::rel_texts(pkgs, order.take(p)) =~= owed);
}

/// Some tasks run a batch in parallel exactly if one of them does.
pub proof fn law_any_parallel(tasks: Seq<TaskView>, a: Seq<Seq<char>>, b: Seq<Seq<char>>)
    ensures
        any_parallel(tasks, a + b) <==> any_parallel(tasks, a) || any_parallel(tasks, b),
        !any_parallel(tasks, Seq::empty()),
        a.len() == 1 ==> (any_parallel(tasks, a) <==> config::find_task(tasks, a[0]) is Some
            && config::find_task(tasks, a[0])->0.parallel),
{
    if any_parallel(tasks, a + b) {
        let i = choose|i: int|
            0 <= i < (a + b).len() && match config::find_task(tasks, #[trigger] (a + b)[i]) {
                Some(t) => t.parallel,
                None => false,
            };
        if i < a.len() {
            assert((a + b)[i] == a[i]);
        } else {
            assert((a + b)[i] == b[i - a.len()]);
        }
    }
    if any_parallel(tasks, a) {
        let i = choose|i: int|
            0 <= i < a.len() && match config::find_task(tasks, #[trigger] a[i]) {
                Some(t) => t.parallel,
                None => false,
            };
        assert((a + b)[i] == a[i]);
    }
    if any_parallel(tasks, b) {
        let i = choose|i: int|
            0 <= i < b.len() && match config::find_task(tasks, #[trigger] b[i]) {
                Some(t) => t.parallel,
                None => false,
            };
        assert((a + b)[a.len() + i] == b[i]);
    }
    if a.len() == 1 {
        assert(any_parallel(tasks, a) ==> {
            let t = config::find_task(tasks, a[0]);
            t is Some && t->0.parallel
        });
        if config::find_task(tasks, a[0]) is Some && config::find_task(tasks, a[0])->0.parallel {
            assert(match config::find_task(tasks, a[0]) {
                Some(t) => t.parallel,
                None => false,
            });
        }
    }
}

/// A run begins with nothing done and nothing wrong.
pub proof fn law_runs_begin_well(no_bail: bool)
    ensures
        fresh(no_bail).no_bail == no_bail,
        !fresh(no_bail).aborted,
        !fresh(no_bail).interrupted,
        fresh(no_bail).first_failure is None,
        fresh(no_bail).runner_error is None,
        fresh(no_bail).results.len() == 0,
        run_code(fresh(no_bail)) == 0,
{
}

/// A task in a package is named after both, so that no two of them are told by the same
/// name where their keys are: the key, and the path in brackets behind it.
pub proof fn law_names_of_units(key: Seq<char>, rel: Seq<char>, other: Seq<char>)
    ensures
        node_label(key, rel) == key + seq![' ', '('] + rel + seq![')'],
        node_label(key, rel) == node_label(key, other) ==> rel == other,
{
    reveal_strlit(" (");
    reveal_strlit(")");
    assert(" ("@ =~= seq![' ', '(']);
    assert(")"@ =~= seq![')']);
    let n = key.len() as int + 2;
    let a = node_label(key, rel);
    let b = node_label(key, other);
    assert(a.subrange(n, a.len() - 1) =~= rel);
    assert(b.subrange(n, b.len() - 1) =~= other);
}

/// What a fan-out says where it runs nothing: that no package is selected, or why the
/// packages have no order.
pub proof fn law_fan_outs_say_why(
    t: TaskView,
    pkgs: Seq<PackageView>,
    sel: SelectionView,
    v: Seq<int>,
    m: Seq<char>,
)
    ensures
        fan_out_of(t, pkgs, sel, Ok(v)) is Nothing ==> fan_out_of(t, pkgs, sel, Ok(v))
            == FanOutView::Nothing("· "@ + t.key + " — no packages selected"@),
        fan_out_of(t, pkgs, sel, Ok(v)) is Fail && (pkggraph::topo(pkgs) == Err::<
            Seq<int>,
            ErrorView,
        >(ErrorView::Config(m)) || pkggraph::topo(pkgs) == Err::<Seq<int>, ErrorView>(
            ErrorView::Runtime(m),
        )) ==> fan_out_of(t, pkgs, sel, Ok(v)) == FanOutView::Fail(m),
{
}

/// Resuming from a package that there is none of is an error that names it, and a
/// workspace without an order cannot be resumed.
pub proof fn law_resuming_fails(pkgs: Seq<PackageView>, key: Seq<char>, e: ErrorView)
    ensures
        (forall|i: int| 0 <= i < pkgs.len() ==> (#[trigger] pkgs[i]).rel != key) && (forall|i: int|
            0 <= i < pkgs.len() ==> (#[trigger] pkgs[i]).name != Some(key)) ==> resumed(pkgs, key)
            == Err::<Seq<Seq<char>>, ErrorView>(
            ErrorView::Runtime("'--resume-from "@ + key + "' matched no workspace package"@),
        ),
        (exists|i: int|
            0 <= i < pkgs.len() && ((#[trigger] pkgs[i]).rel == key || pkgs[i].name == Some(key)))
            && pkggraph::topo(pkgs) == Err::<Seq<int>, ErrorView>(e) ==> resumed(pkgs, key) == Err::<
            Seq<Seq<char>>,
            ErrorView,
        >(e),
{
    lemma_rel_index(pkgs, key);
    pkggraph::lemma_name_index(pkgs, key);
}

/// The environment of a job: what the runner has, then the root `.env`, `[env]`, the
/// `env_file`s of the task and its own `env`, each over those before it, and the local
/// binaries in front of `PATH`. So what the task itself sets comes last.
pub proof fn law_environments_of_jobs(cfg: ConfigView, t: TaskView, facts: Facts, key: Seq<char>)
    requires
        facts.bins@.len() == 0,
    ensures
        ({
            let all = job_env(cfg, t, facts);
            let ic = facts.process.ignores_case();
            let dotenv = config::pair_views(facts.dotenv@);
            let files = config::pair_views(facts.files@);
            let e1 = env::with_pairs(facts.process@, ic, dotenv);
            let e2 = env::with_pairs(e1, ic, cfg.env);
            let e3 = env::with_pairs(e2, ic, files);
            &&& all == env::with_pairs(e3, ic, t.env)
            &&& !env::sets(t.env, ic, key) && all.contains_key(key) ==> all[key] == e3[key]
            &&& !env::sets(t.env, ic, key) && !env::sets(files, ic, key) && all.contains_key(key)
                ==> all[key] == e2[key]
            &&& !env::sets(t.env, ic, key) && !env::sets(files, ic, key) && !env::sets(
                cfg.env,
                ic,
                key,
            ) && all.contains_key(key) ==> all[key] == e1[key]
        }),
{
    env::law_precedence(
        facts.process@,
        facts.process.ignores_case(),
        config::pair_views(facts.dotenv@),
        cfg.env,
        config::pair_views(facts.files@),
        t.env,
        key,
    );
}

/// A job runs in its place, under the label of the place and with its environment, and
/// executes what its task comes to there.
pub proof fn law_jobs_run_in_their_place(
    job: Job,
    cfg: ConfigView,
    t: TaskView,
    place: Place,
    passthrough: Seq<Seq<char>>,
)
    requires
        is_job_in(job, cfg, t, place, passthrough),
    ensures
        job.label@ == place.label@,
        job.dir@ == place.dir@,
        job.env@ == job_env(cfg, t, place.facts),
        job.env.ignores_case() == place.facts.process.ignores_case(),
        action_of(t, place.dir@, place.facts.markers, job_env(cfg, t, place.facts), passthrough)
            == Ok::<ActionView, Seq<char>>(job.action@),
{
}

/// Jobs can be made exactly if the task comes to something in every place; the first place
/// where it does not is the one that is reported.
pub proof fn law_jobs_fail_together(
    cfg: ConfigView,
    t: TaskView,
    places: Seq<Place>,
    passthrough: Seq<Seq<char>>,
    from: int,
    i: int,
)
    requires
        0 <= from <= places.len(),
    ensures
        jobs_error(cfg, t, places, passthrough, from) is None <==> forall|k: int|
            from <= k < places.len() ==> action_in(cfg, t, #[trigger] places[k], passthrough) is Ok,
        from <= i < places.len() && action_in(cfg, t, places[i], passthrough) is Err && (forall|
            k: int,
        |
            from <= k < i ==> action_in(cfg, t, #[trigger] places[k], passthrough) is Ok)
            ==> jobs_error(cfg, t, places, passthrough, from) == Some(
            action_in(cfg, t, places[i], passthrough)->Err_0,
        ),
    decreases places.len() - from,
{
    if from < places.len() {
        law_jobs_fail_together(cfg, t, places, passthrough, from + 1, i);
        if from < i < places.len() && (forall|k: int|
            from <= k < i ==> action_in(cfg, t, #[trigger] places[k], passthrough) is Ok) {
            assert(action_in(cfg, t, places[from], passthrough) is Ok);
        }
    }
}

/// An upstream dependency on a task that there is none of fails, and says which task and
/// which dependency it is.
pub proof fn law_unknown_upstream_tasks(
    tasks: Seq<TaskView>,
    t: TaskView,
    nodes: Seq<int>,
    n: int,
    name: Seq<char>,
)
    requires
        0 < n <= t.deps.len(),
        t.deps[n - 1] == seq!['^'] + name,
        config::find_task(tasks, name) is None,
    ensures
        upstream_steps(tasks, t, nodes, n) == upstream_steps(tasks, t, nodes, n - 1).push(
            StepView::Fail(
                "task '"@ + t.key + "': upstream dep '"@ + (seq!['^'] + name) + "' names no task '"@
                    + name + "'"@,
            ),
        ),
{
    config::law_dependencies(name, true, name);
}

} // verus!
