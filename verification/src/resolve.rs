//! What a task executes, by precedence:
//!
//! 1. `delegate`: `<bin> run <task>`, or `bin` and `args` as written.
//! 2. `run`: the command string, handed to the shell layer.
//! 3. Neither: the native runner of the ecosystem detected in its directory.

use vstd::prelude::*;

use crate::config;
use crate::config::{Delegate, DelegateView, Task, TaskView};
use crate::detect;
use crate::detect::{Ecosystem, Markers};
use crate::error::{ErrorView, TsrError};
use crate::text;

verus! {

/// What a resolved task executes, before the env merge and CLI passthrough.
#[derive(Debug, PartialEq, Eq)]
pub enum Invocation {
    /// A program and its arguments: `delegate`, or a native runner. Never
    /// touches the mini-shell.
    Direct { program: String, args: Vec<String> },
    /// A `run` string.
    Run(String),
}

/// An invocation.
pub enum InvocationView {
    Direct { program: Seq<char>, args: Seq<Seq<char>> },
    Run(Seq<char>),
}

impl View for Invocation {
    type V = InvocationView;

    open spec fn view(&self) -> InvocationView {
        match self {
            Invocation::Direct { program, args } => InvocationView::Direct {
                program: program@,
                args: text::texts(args@),
            },
            Invocation::Run(s) => InvocationView::Run(s@),
        }
    }
}

/// What a task executes in a directory of this ecosystem.
pub open spec fn invocation(t: TaskView, dir: Seq<char>, eco: Option<Ecosystem>) -> Result<
    InvocationView,
    ErrorView,
> {
    match t.delegate {
        Some(DelegateView::Bin(bin)) => Ok(
            InvocationView::Direct { program: bin, args: seq!["run"@, config::task_part(t.key)] },
        ),
        Some(DelegateView::Full { bin, args }) => Ok(InvocationView::Direct { program: bin, args }),
        None => match t.run {
            Some(run) => Ok(InvocationView::Run(run)),
            None => match eco {
                Some(eco) => {
                    let (program, args) = detect::native(eco, config::task_part(t.key));
                    Ok(InvocationView::Direct { program, args })
                },
                None => Err(
                    ErrorView::Runtime(
                        "task '"@ + t.key + "': no recognised ecosystem in '"@ + dir
                            + "' (expected one of package.json, Cargo.toml, go.mod, pyproject.toml) and the task defines neither 'run' nor 'delegate'"@,
                    ),
                ),
            },
        },
    }
}

/// Resolve a task's form. `markers` are the marker files of the directory it
/// runs in, which decide only when it has neither `delegate` nor `run`.
pub fn resolve(task: &Task, dir: &str, markers: &Markers) -> (r: Result<Invocation, TsrError>)
    ensures
        match r {
            Ok(i) => invocation(task@, dir@, detect::ecosystem_of(*markers)) == Ok::<
                InvocationView,
                ErrorView,
            >(i@),
            Err(e) => invocation(task@, dir@, detect::ecosystem_of(*markers)) == Err::<
                InvocationView,
                ErrorView,
            >(e@),
        },
{
    if let Some(delegate) = &task.delegate {
        return Ok(
            match delegate {
                Delegate::Bin(bin) => {
                    let mut args: Vec<String> = Vec::new();
                    args.push("run".to_string());
                    args.push(task.task_name());
                    assert(text::texts(args@) =~= seq!["run"@, config::task_part(task.key@)]);
                    Invocation::Direct { program: bin.clone(), args }
                },
                Delegate::Full { bin, args } => Invocation::Direct {
                    program: bin.clone(),
                    args: text::copy_strings(args),
                },
            },
        );
    }
    if let Some(run) = &task.run {
        return Ok(Invocation::Run(run.clone()));
    }
    match detect::detect(markers) {
        Some(eco) => {
            let name = task.task_name();
            let (program, args) = eco.native_command(name.as_str());
            Ok(Invocation::Direct { program, args })
        },
        None => {
            let mut m = "task '".to_string();
            m.append(task.key.as_str());
            m.append("': no recognised ecosystem in '");
            m.append(dir);
            m.append(
                "' (expected one of package.json, Cargo.toml, go.mod, pyproject.toml) and the task defines neither 'run' nor 'delegate'",
            );
            Err(TsrError::Runtime(m))
        },
    }
}

/// `delegate` comes before `run`, and `run` before auto-detection: with the
/// stronger form there, the weaker one and the directory do not matter.
pub proof fn law_precedence(
    t: TaskView,
    dir: Seq<char>,
    eco: Option<Ecosystem>,
    run: Option<Seq<char>>,
    other_dir: Seq<char>,
    other_eco: Option<Ecosystem>,
)
    ensures
        t.delegate is Some ==> invocation(t, dir, eco) is Ok && invocation(t, dir, eco)
            == invocation(TaskView { run, ..t }, other_dir, other_eco),
        t.delegate is None && t.run is Some ==> invocation(t, dir, eco) == Ok::<
            InvocationView,
            ErrorView,
        >(InvocationView::Run(t.run->0)),
        t.delegate is None && t.run is None && eco is Some ==> invocation(t, dir, eco) is Ok,
{
}

/// A backend that is a name is asked to run the task by its name; one that is written
/// out is run as it is written.
pub proof fn law_delegates(t: TaskView, dir: Seq<char>, eco: Option<Ecosystem>, package: Seq<char>, name: Seq<char>)
    requires
        !package.contains('#'),
        !name.contains('#'),
        t.key == name || t.key == package + seq!['#'] + name,
    ensures
        t.delegate matches Some(DelegateView::Bin(bin)) ==> invocation(t, dir, eco) == Ok::<
            InvocationView,
            ErrorView,
        >(InvocationView::Direct { program: bin, args: seq!["run"@, name] }),
        t.delegate matches Some(DelegateView::Full { bin, args }) ==> invocation(t, dir, eco)
            == Ok::<InvocationView, ErrorView>(InvocationView::Direct { program: bin, args }),
{
    config::law_task_names(name, 0);
    config::law_package_keys(package, name);
}

/// A task with neither a backend nor a `run` string is run by the ecosystem of its
/// directory, under its own name; where there is no ecosystem, that is an error which
/// names the task and the directory.
pub proof fn law_detected_tasks(t: TaskView, dir: Seq<char>, eco: Ecosystem, package: Seq<char>, name: Seq<char>)
    requires
        !package.contains('#'),
        !name.contains('#'),
        t.key == name || t.key == package + seq!['#'] + name,
        t.delegate is None,
        t.run is None,
    ensures
        invocation(t, dir, Some(eco)) == Ok::<InvocationView, ErrorView>(
            InvocationView::Direct {
                program: detect::native(eco, name).0,
                args: detect::native(eco, name).1,
            },
        ),
        invocation(t, dir, None) == Err::<InvocationView, ErrorView>(
            ErrorView::Runtime(
                "task '"@ + t.key + "': no recognised ecosystem in '"@ + dir
                    + "' (expected one of package.json, Cargo.toml, go.mod, pyproject.toml) and the task defines neither 'run' nor 'delegate'"@,
            ),
        ),
{
    config::law_task_names(name, 0);
    config::law_package_keys(package, name);
}

} // verus!
