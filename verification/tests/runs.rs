//! Whole runs, from the command line to the exit code, over files, programs and
//! a git that live in memory.

use std::collections::BTreeMap;

use tsr::builtins::{self, Doing, Found as Thing, Op, Plan};
use tsr::changed::{affected, changed_files, GitOutput};
use tsr::cli::{self, Cli, Reporter, RunOptions};
use tsr::config::{self, Config, DirFacts, Task};
use tsr::confine::{self, Bounds};
use tsr::detect::{detect, Markers};
use tsr::env::{
    env_file_paths, expand_value, load_env_files, node_bin_dirs, parse_dotenv, task_base_dir,
    validate_run_vars, EnvMap,
};
use tsr::error::TsrError;
use tsr::exec::{
    build_job, build_jobs, combine, command_at, dispatch, fan_out, label, node_steps, plan_lines, resume_skip,
    shell_next, skipped_from, task_steps, Action, Claim, Dispatch, Elapsed, Facts, FanOut, Job, LeafWait, Memo,
    Next, Place, Progress, ResultKind, Selection, Sequence, ShellNext, Status, Step, Unit,
};
use tsr::graph;
use tsr::guard;
use tsr::path::{absolute, join, parts, render, to_slash};
use tsr::pkggraph::PackageGraph;
use tsr::report::{events_enabled, summary_event, summary_lines, summary_wanted, task_event};
use tsr::shell::{ExecPlan, ExpandedCommand};
use tsr::workspace::{member_queries, packages, Found, Package};

/// What a run left behind.
struct Output {
    code: i32,
    out: String,
    err: String,
    /// The reporter file.
    events: String,
}

fn code(out: &Output) -> i32 {
    out.code
}

fn stdout(out: &Output) -> String {
    out.out.clone()
}

fn stderr(out: &Output) -> String {
    out.err.clone()
}

/// A machine with a workspace at `/ws`.
struct World {
    /// Files by path; a directory has no text.
    at: BTreeMap<String, Option<String>>,
    process: EnvMap,
    file_mode: u32,
    /// The files that git calls changed and untracked; `None` outside a
    /// repository.
    git: Option<(Vec<String>, Vec<String>)>,
    out: String,
    err: String,
    events: String,
}

/// The part of a run that its units share.
struct Run<'a> {
    cfg: &'a Config,
    graph: &'a PackageGraph,
    bounds: &'a Bounds,
    sel: &'a Selection,
    opts: &'a RunOptions,
    dry: bool,
    progress: Progress,
    memo: Memo,
}

fn world() -> World {
    let mut w = World {
        at: BTreeMap::new(),
        process: EnvMap::new(),
        file_mode: 0o100644,
        git: None,
        out: String::new(),
        err: String::new(),
        events: String::new(),
    };
    w.dir("/ws");
    w.write_at("/usr/bin/sh", "");
    w.process.insert("PATH", "/usr/bin");
    w
}

fn strings(list: &[&str]) -> Vec<String> {
    list.iter().map(|s| s.to_string()).collect()
}

fn elapsed() -> Option<Elapsed> {
    Some(Elapsed {
        seconds: "0.1".to_string(),
        millis: "100.5".to_string(),
    })
}

impl World {
    fn dir(&mut self, p: &str) {
        let mut here = to_slash(p);
        while !here.is_empty() && here != "/" {
            self.at.entry(here.clone()).or_insert(None);
            here.truncate(here.rfind('/').unwrap_or(0));
        }
    }

    fn write_at(&mut self, p: &str, body: &str) {
        self.dir(&p[..p.rfind('/').unwrap()]);
        self.at.insert(p.to_string(), Some(body.to_string()));
    }

    fn write(&mut self, rel: &str, body: &str) {
        self.write_at(&format!("/ws/{rel}"), body);
    }

    fn is_there(&self, rel: &str) -> bool {
        self.at.contains_key(&join("/ws", rel))
    }

    fn is_file(&self, rel: &str) -> bool {
        matches!(self.at.get(&join("/ws", rel)), Some(Some(_)))
    }

    fn is_dir(&self, p: &str) -> bool {
        matches!(self.at.get(&to_slash(p)), Some(None))
    }

    fn read(&self, p: &str) -> Option<String> {
        self.at.get(&to_slash(p)).cloned().flatten()
    }

    /// A program that prints how it was called.
    fn shim(&mut self, dir: &str, name: &str) {
        let body = format!("#!/bin/sh\necho INVOKED {name} \"$@\"\n");
        self.write_at(&format!("{dir}/{name}"), &body);
    }

    /// What a path really is: there are no links here.
    fn really(&self, p: &str) -> Option<String> {
        let mut names: Vec<String> = Vec::new();
        for part in parts(p) {
            match part.as_str() {
                "." => {}
                ".." => {
                    names.pop();
                }
                _ => {
                    names.push(part);
                    if !self.at.contains_key(&render(absolute(p), &names)) {
                        return None;
                    }
                }
            }
        }
        Some(render(absolute(p), &names))
    }

    fn facts(&self, base: &str, arg: &str) -> Vec<Option<String>> {
        let ask = |paths: Vec<String>| paths.into_iter().map(|p| self.really(&p));
        let mut known: Vec<Option<String>> = ask(confine::candidates(base, arg)).collect();
        let again = confine::candidates_again(base, arg, &known);
        known.extend(ask(again));
        known
    }

    fn markers(&self, dir: &str) -> Markers {
        let has = |f: &str| self.at.contains_key(&join(dir, f));
        Markers {
            package_json: has("package.json"),
            bun_lock: has("bun.lockb") || has("bun.lock"),
            cargo_toml: has("Cargo.toml"),
            go_mod: has("go.mod"),
            pyproject_toml: has("pyproject.toml"),
        }
    }

    fn dir_facts(&self, dirs: &[String]) -> Vec<DirFacts> {
        dirs.iter()
            .map(|d| DirFacts {
                has_config: self.at.contains_key(&join(d, "tasks.toml")),
                is_repository: self.at.contains_key(&join(d, ".git")),
                is_home: false,
                other_filesystem: false,
                has_marker: detect(&self.markers(d)).is_some(),
            })
            .collect()
    }

    /// What a glob finds, in order.
    fn glob(&self, query: &str) -> Option<Vec<String>> {
        let pattern = glob::Pattern::new(query).ok()?;
        let options = glob::MatchOptions {
            case_sensitive: true,
            require_literal_separator: true,
            require_literal_leading_dot: true,
        };
        Some(
            self.at
                .keys()
                .filter(|p| pattern.matches_with(p, options))
                .cloned()
                .collect(),
        )
    }

    fn packages(&self, cfg: &Config) -> Vec<Package> {
        let mut found = Vec::new();
        for query in member_queries(cfg) {
            for path in self.glob(&query).unwrap_or_default() {
                let markers = self.markers(&path);
                let manifest = match detect(&markers) {
                    Some(eco) => self.read(&join(&path, eco.manifest_file())),
                    None => None,
                };
                found.push(Found {
                    is_dir: self.is_dir(&path),
                    markers,
                    manifest: manifest.unwrap_or_default(),
                    above: config::ancestors(&path)
                        .iter()
                        .skip(1)
                        .filter_map(|d| self.read(&join(d, "Cargo.toml")))
                        .collect(),
                    path,
                });
            }
        }
        packages(&cfg.root, &found)
    }

    fn dotenv(&self, cfg: &Config) -> Vec<(String, String)> {
        match self.read(&join(&cfg.root, ".env")) {
            Some(text) => parse_dotenv(&text),
            None => Vec::new(),
        }
    }

    fn env_files(&self, cfg: &Config, task: &Task) -> Vec<(String, String)> {
        let texts = env_file_paths(&cfg.root, task)
            .iter()
            .map(|p| self.read(p))
            .collect();
        load_env_files(&texts)
    }

    fn tsr(&mut self, args: &[&str]) -> Output {
        self.tsr_in("/ws", args)
    }

    fn tsr_in(&mut self, cwd: &str, args: &[&str]) -> Output {
        self.out.clear();
        self.err.clear();
        self.events.clear();
        let code = match self.main(cwd, &strings(args)) {
            Ok(code) => code,
            Err(e) => {
                self.err.push_str(&e.message());
                self.err.push('\n');
                e.exit_code()
            }
        };
        Output {
            code,
            out: self.out.clone(),
            err: self.err.clone(),
            events: self.events.clone(),
        }
    }

    fn print(&mut self, lines: &[String]) {
        for line in lines {
            self.out.push_str(line);
            self.out.push('\n');
        }
    }

    fn load(&self, dir: &str) -> Result<Config, TsrError> {
        let file = join(dir, "tasks.toml");
        config::check_permissions(&file, self.file_mode, 0o40755)?;
        Config::load(&self.read(&file).unwrap(), dir)
    }

    fn main(&mut self, cwd: &str, args: &Vec<String>) -> Result<i32, TsrError> {
        let dirs = config::ancestors(cwd);
        let facts = self.dir_facts(&dirs);
        let at = config::locate(&facts);
        match cli::parse(args)? {
            Cli::Help | Cli::Version | Cli::Config => panic!("not here"),
            Cli::Init => {
                let made = cli::init(cwd, self.is_file("tasks.toml"))?;
                self.write_at(&made.path, &made.contents);
                self.print(&made.notes);
                Ok(0)
            }
            Cli::List => {
                let lines = match at {
                    Some(i) => cli::list(&self.load(&dirs[i])?),
                    None => {
                        let found = config::nearest_package_root(&facts)
                            .map(|i| (dirs[i].clone(), self.markers(&dirs[i])));
                        cli::list_configless(&found)
                    }
                };
                self.print(&lines);
                Ok(0)
            }
            Cli::Run {
                task,
                passthrough,
                opts,
            } => {
                let cfg = match at {
                    Some(i) => self.load(&dirs[i])?,
                    None => {
                        let root = config::nearest_package_root(&facts);
                        cli::implicit_config(cwd, &task, root.map(|i| dirs[i].as_str()))?
                    }
                };
                self.start(&cfg, &task, &passthrough, &opts)
            }
        }
    }

    /// Everything that can be refused, and then the run.
    fn start(
        &mut self,
        cfg: &Config,
        task: &str,
        passthrough: &Vec<String>,
        opts: &RunOptions,
    ) -> Result<i32, TsrError> {
        let allowed = cfg
            .allow_paths
            .iter()
            .map(|p| confine::resolve(&cfg.root, p, &self.facts(&cfg.root, p)))
            .collect();
        let bounds = Bounds::new(&cfg.root, allowed);
        for c in confine::config_paths(cfg) {
            bounds.check(&c.what, &c.base, &c.arg, &self.facts(&c.base, &c.arg))?;
        }
        graph::validate(cfg, task)?;
        let keys = graph::reachable(cfg, task);
        let dotenv = self.dotenv(cfg);
        let files = keys
            .iter()
            .map(|k| match cfg.task(k) {
                Some(t) => self.env_files(cfg, t),
                None => Vec::new(),
            })
            .collect();
        validate_run_vars(cfg, &keys, &self.process, &dotenv, &files)?;
        guard::check(
            cfg,
            &keys,
            &dotenv,
            &files,
            ':',
            false,
            opts.allow_unsafe_env,
        )?;
        let graph = PackageGraph::from_packages(self.packages(cfg));
        let mut sel = Selection::plain();
        if let Some(since) = &opts.since {
            let answer = |files: Vec<String>| GitOutput::Done(files.join("\n"));
            let (diff, untracked) = match &self.git {
                None => {
                    let no = || GitOutput::Failed("fatal: not a git repository".to_string());
                    (no(), no())
                }
                Some(_) if since != "HEAD" => (
                    GitOutput::Failed("fatal: ambiguous argument".to_string()),
                    answer(Vec::new()),
                ),
                Some((changed, new)) => (answer(changed.clone()), answer(new.clone())),
            };
            let files = changed_files(since, &diff, &untracked)?;
            sel.affected = affected(&graph, &files).map(|set| graph.rels(&set));
        }
        if let Some(from) = &opts.resume_from {
            sel.skip = Some(resume_skip(&graph, from)?);
        }
        let mut run = Run {
            cfg,
            graph: &graph,
            bounds: &bounds,
            sel: &sel,
            opts,
            dry: opts.dry_run,
            progress: Progress::new(opts.no_bail),
            memo: Memo::new(),
        };
        self.run_task(&mut run, task, passthrough);
        let code = run.progress.exit_code();
        if run.dry {
            if let Some(m) = &run.progress.runner_error {
                self.err.push_str(m);
            }
            return Ok(code);
        }
        if events_enabled(opts.reporter, opts.reporter_file.is_some()) {
            self.emit(opts, &summary_event(task, &run.progress, "12.5"));
        }
        if summary_wanted(opts.reporter, code) {
            for line in summary_lines(task, &run.progress) {
                self.err.push_str(&line);
                self.err.push('\n');
            }
        }
        Ok(code)
    }

    fn emit(&mut self, opts: &RunOptions, line: &str) {
        if opts.reporter == Reporter::Ndjson {
            self.err.push_str(line);
            self.err.push('\n');
        }
        if opts.reporter_file.is_some() {
            self.events.push_str(line);
            self.events.push('\n');
        }
    }

    fn run_task(&mut self, run: &mut Run, key: &str, passthrough: &Vec<String>) -> Status {
        match run.memo.claim(key) {
            Claim::Finished(s) => return s,
            Claim::Running => panic!("'{key}' waits for itself"),
            Claim::Mine => {}
        }
        let mut unit = Unit::new(task_steps(run.cfg, key));
        let status = loop {
            match unit.next(run.progress.aborted) {
                Next::Finish(s) => break s,
                Next::Perform(i) => {
                    let s = self.step(run, &unit.steps[i], key, None, passthrough);
                    unit.advance(s);
                }
            }
        };
        run.memo.finish(key, status);
        status
    }

    fn run_node(
        &mut self,
        run: &mut Run,
        key: &str,
        index: usize,
        passthrough: &Vec<String>,
    ) -> Status {
        let name = label(key, &run.graph.get(index).rel);
        match run.memo.claim(&name) {
            Claim::Finished(s) => return s,
            Claim::Running => panic!("'{name}' waits for itself"),
            Claim::Mine => {}
        }
        let task = run.cfg.task(key).unwrap();
        let mut unit = Unit::new(node_steps(run.cfg, task, run.graph, index, &run.sel.skip));
        let status = loop {
            match unit.next(run.progress.aborted) {
                Next::Finish(s) => break s,
                Next::Perform(i) => {
                    let s = self.step(run, &unit.steps[i], key, Some(index), passthrough);
                    unit.advance(s);
                }
            }
        };
        run.memo.finish(&name, status);
        status
    }

    /// Run a batch. One that may run in parallel is run to its end, and its
    /// statuses are combined.
    fn batch(
        &mut self,
        run: &mut Run,
        n: usize,
        parallel: bool,
        mut item: impl FnMut(&mut World, &mut Run, usize) -> Status,
        mut skip: impl FnMut(&mut World, &mut Run, usize),
    ) -> Status {
        if parallel {
            let mut all = Vec::new();
            for i in 0..n {
                all.push(item(self, run, i));
            }
            return combine(&all);
        }
        let mut sequence = Sequence::new(run.opts.no_bail);
        let mut statuses = Vec::new();
        for i in 0..n {
            if sequence.proceeds() {
                let s = item(self, run, i);
                sequence.note(s);
                statuses.push(s);
            }
        }
        if !run.dry {
            for i in skipped_from(&statuses, run.opts.no_bail, n) {
                skip(self, run, i);
            }
        }
        sequence.result
    }

    /// A unit that is not going to be started is recorded, unless another batch
    /// has asked for it.
    fn skip_unit(&mut self, run: &mut Run, name: &str) {
        if run.memo.skip(name) {
            self.record(run, name, ResultKind::Skipped, None);
        }
    }

    fn step(
        &mut self,
        run: &mut Run,
        step: &Step,
        key: &str,
        node: Option<usize>,
        passthrough: &Vec<String>,
    ) -> Status {
        let none = Vec::new();
        match step {
            Step::Nothing => Status::Passed,
            Step::Fail(m) => {
                run.progress.note_runner(m.clone());
                Status::Runner
            }
            Step::Satisfied => {
                let name = label(key, &run.graph.get(node.unwrap()).rel);
                self.record(run, &name, ResultKind::Skipped, None);
                Status::Passed
            }
            Step::Deps { keys, parallel } => self.batch(
                run,
                keys.len(),
                *parallel,
                |w, r, i| w.run_task(r, &keys[i], &none),
                |w, r, i| w.skip_unit(r, &keys[i]),
            ),
            Step::Upstream {
                task,
                nodes,
                parallel,
            } => self.batch(
                run,
                nodes.len(),
                *parallel,
                |w, r, i| w.run_node(r, task, nodes[i], &none),
                |w, r, i| {
                    let name = label(task, &r.graph.get(nodes[i]).rel);
                    w.skip_unit(r, &name);
                },
            ),
            Step::FanOut => {
                let task = run.cfg.task(key).unwrap();
                match fan_out(task, run.graph, run.sel) {
                    FanOut::Fail(m) => {
                        run.progress.note_runner(m);
                        Status::Runner
                    }
                    FanOut::Nothing(line) => {
                        if run.opts.reporter == Reporter::Human {
                            self.print(&[line]);
                        }
                        Status::Passed
                    }
                    FanOut::Flat(nodes) => {
                        let units: Vec<_> = nodes.iter().map(|i| Some(*i)).collect();
                        match self.jobs(run, key, &units, passthrough) {
                            Err(m) => {
                                run.progress.note_runner(m);
                                Status::Runner
                            }
                            Ok(jobs) => self.batch(
                                run,
                                jobs.len(),
                                task.parallel,
                                |w, r, i| w.leaf(r, &jobs[i]),
                                |w, r, i| w.record(r, &jobs[i].label, ResultKind::Skipped, None),
                            ),
                        }
                    }
                    FanOut::Ordered(nodes) => self.batch(
                        run,
                        nodes.len(),
                        task.parallel,
                        |w, r, i| w.run_node(r, key, nodes[i], passthrough),
                        |w, r, i| {
                            let name = label(key, &r.graph.get(nodes[i]).rel);
                            w.skip_unit(r, &name);
                        },
                    ),
                }
            }
            Step::Command => self.command(run, key, node, passthrough),
        }
    }

    fn record(&mut self, run: &mut Run, name: &str, kind: ResultKind, dur: Option<Elapsed>) {
        if events_enabled(run.opts.reporter, run.opts.reporter_file.is_some()) {
            self.emit(run.opts, &task_event(name, kind, &dur));
        }
        run.progress.record(name, kind, dur);
    }

    /// The unit's own command, in its directory or in a package.
    fn command(
        &mut self,
        run: &mut Run,
        key: &str,
        node: Option<usize>,
        passthrough: &Vec<String>,
    ) -> Status {
        match self.jobs(run, key, &[node], passthrough) {
            Ok(jobs) if jobs.is_empty() => Status::Passed,
            Ok(jobs) => self.leaf(run, &jobs[0]),
            Err(m) => {
                run.progress.note_runner(m);
                Status::Runner
            }
        }
    }

    /// The jobs of a task's command in its directory or in packages. A dry run says
    /// what they are, and has none.
    fn jobs(
        &mut self,
        run: &Run,
        key: &str,
        units: &[Option<usize>],
        passthrough: &Vec<String>,
    ) -> Result<Vec<Job>, String> {
        let task = run.cfg.task(key).unwrap();
        let mut lines = Vec::new();
        let mut places = Vec::new();
        for unit in units {
            let (dir, name) = match unit {
                Some(i) => (
                    run.graph.get(*i).path.clone(),
                    label(key, &run.graph.get(*i).rel),
                ),
                None => (task_base_dir(&run.cfg.root, task), key.to_string()),
            };
            let dir = self.really(&dir).unwrap_or(dir);
            let markers = self.markers(&dir);
            if run.dry {
                lines.extend(plan_lines(task, &dir, &name, passthrough, &markers)?);
                continue;
            }
            let bins = node_bin_dirs(&dir, &run.cfg.root)
                .into_iter()
                .filter(|d| self.is_dir(d))
                .collect();
            let facts = Facts {
                markers,
                process: self.process.clone(),
                dotenv: self.dotenv(run.cfg),
                files: self.env_files(run.cfg, task),
                bins,
                sep: ':',
            };
            places.push(Place {
                dir,
                label: name,
                facts,
            });
        }
        self.print(&lines);
        build_jobs(run.cfg, task, &places, passthrough)
    }

    fn leaf(&mut self, run: &mut Run, job: &Job) -> Status {
        if !run.progress.start_leaf(&job.label) {
            return Status::Skipped;
        }
        let wait = match &job.action {
            Action::Spawn { program, args } => self.spawn(program, args, job),
            Action::Shell(plan) => self.shell(run, plan, job),
        };
        let before = run.progress.results.len();
        let status = run.progress.finish_leaf(&job.label, wait, elapsed());
        if events_enabled(run.opts.reporter, run.opts.reporter_file.is_some()) {
            let r = &run.progress.results[before];
            let line = task_event(&r.label, r.kind, &r.dur);
            self.emit(run.opts, &line);
        }
        status
    }

    fn shell(&mut self, run: &Run, plan: &ExecPlan, job: &Job) -> LeafWait {
        let mut at = 0;
        let mut last = 0;
        loop {
            match shell_next(plan, at, last, run.progress.aborted) {
                ShellNext::Finish(w) => return w,
                ShellNext::Run(i) => match self.one(run, command_at(plan, i), job) {
                    LeafWait::Exited(c) => {
                        last = c;
                        at = i + 1;
                    }
                    other => return other,
                },
            }
        }
    }

    fn one(&mut self, run: &Run, cmd: &ExpandedCommand, job: &Job) -> LeafWait {
        let found = cmd
            .glob_queries(&job.dir)
            .iter()
            .map(|q| q.as_ref().and_then(|q| self.glob(q)))
            .collect();
        let argv = cmd.argv(&job.dir, &found);
        match dispatch(&argv) {
            Dispatch::Fail(m) => LeafWait::SpawnFailed(m),
            Dispatch::Spawn => self.spawn(&argv[0], &argv[1..], job),
            Dispatch::Builtin => {
                let args = argv[1..].to_vec();
                LeafWait::Exited(self.builtin(run.bounds, &argv[0], &args, &job.dir))
            }
        }
    }

    /// Run a program found through the job's `PATH`: a script of `echo` and
    /// `exit` lines.
    fn spawn(&mut self, program: &str, args: &[String], job: &Job) -> LeafWait {
        let path = job.env.get("PATH").map(|s| s.as_str()).unwrap_or("");
        let found = if program.contains('/') {
            Some(join(&job.dir, program))
        } else {
            path.split(':')
                .map(|d| format!("{d}/{program}"))
                .find(|p| self.at.contains_key(p))
        };
        let Some(script) = found.and_then(|p| self.read(&p)) else {
            return LeafWait::SpawnFailed(format!("cannot run '{program}': not found"));
        };
        let script = if program == "sh" {
            args[1].clone()
        } else {
            script
        };
        for line in script.lines() {
            if let Some(n) = line.strip_prefix("exit ") {
                return LeafWait::Exited(n.parse().unwrap());
            }
            if let Some(text) = line.strip_prefix("echo ") {
                let text = text.replace("\"$@\"", &args.join(" "));
                let text = expand_value(&text, &job.env);
                if let Some((what, file)) = text.split_once(" >> ") {
                    let old = self.read(file).unwrap_or_default();
                    self.write_at(file, &format!("{old}{what}\n"));
                } else if let Some(what) = text.strip_suffix(" >&2") {
                    self.err.push_str(what.trim_matches('\''));
                    self.err.push('\n');
                } else {
                    self.out.push_str(&text);
                    self.out.push('\n');
                }
            }
        }
        LeafWait::Exited(0)
    }

    fn below(&self, p: &str) -> Vec<(String, Option<String>)> {
        let inside = format!("{p}/");
        self.at
            .iter()
            .filter(|(k, _)| *k == p || k.starts_with(&inside))
            .map(|(k, v)| (k.clone(), v.clone()))
            .collect()
    }

    fn builtin(&mut self, bounds: &Bounds, name: &str, args: &Vec<String>, cwd: &str) -> i32 {
        let into_dir = match builtins::destination(name, args, cwd) {
            Some(p) => self.is_dir(&p),
            None => false,
        };
        match builtins::run(name, args, cwd, into_dir) {
            Plan::Exit { code, message } => {
                if let Some(m) = message {
                    self.err.push_str(&m);
                }
                code
            }
            Plan::Print(text) => {
                self.out.push_str(&text);
                0
            }
            Plan::CopyStdin => 0,
            Plan::Each(ops) => {
                let mut failed = Vec::new();
                for op in &ops {
                    match self.perform(bounds, op, cwd) {
                        Ok(()) => failed.push(false),
                        Err(m) => {
                            self.err.push_str(&m);
                            self.err.push('\n');
                            failed.push(true);
                        }
                    }
                }
                builtins::exit_code(&failed)
            }
        }
    }

    fn perform(&mut self, bounds: &Bounds, op: &Op, cwd: &str) -> Result<(), String> {
        let permits = |w: &World, p: &str| bounds.permits_operand(cwd, p, &w.facts(cwd, p));
        match op {
            Op::Touch(p) => match builtins::touch("touch", p, permits(self, p)) {
                Doing::Fail(m) => Err(m),
                _ => {
                    let p = self.really(p).unwrap_or(p.clone());
                    let parent = self.really(&p[..p.rfind('/').unwrap()]).unwrap();
                    let p = join(&parent, &p[p.rfind('/').unwrap() + 1..]);
                    self.at.entry(p).or_insert(Some(String::new()));
                    Ok(())
                }
            },
            Op::Mkdir { path, .. } => match builtins::touch("mkdir", path, permits(self, path)) {
                Doing::Fail(m) => Err(m),
                _ => {
                    self.dir(path);
                    Ok(())
                }
            },
            Op::Rm {
                path,
                recursive,
                force,
            } => {
                let found = match self.at.get(path) {
                    None => Thing::Missing("no such file".to_string()),
                    Some(None) => Thing::Directory,
                    Some(Some(_)) => Thing::Other,
                };
                match builtins::rm(path, *recursive, *force, permits(self, path), &found) {
                    Doing::Fail(m) => Err(m),
                    Doing::Ignore => Ok(()),
                    _ => {
                        for (k, _) in self.below(path) {
                            self.at.remove(&k);
                        }
                        Ok(())
                    }
                }
            }
            Op::Cp {
                src,
                dst,
                recursive,
            } => {
                let fine = permits(self, src) && permits(self, dst);
                match builtins::cp(src, *recursive, fine, self.is_dir(src)) {
                    Doing::Fail(m) => Err(m),
                    _ => {
                        for (k, v) in self.below(src) {
                            self.at.insert(format!("{dst}{}", &k[src.len()..]), v);
                        }
                        Ok(())
                    }
                }
            }
            Op::Cat(_) | Op::Mv { .. } => panic!("not here"),
        }
    }
}

// --- single tasks ---

#[test]
fn runs_a_direct_command() {
    let mut w = world();
    w.write("tasks.toml", "[tasks.hello]\nrun = \"echo hi-there\"\n");
    let out = w.tsr(&["hello"]);
    assert_eq!(code(&out), 0);
    assert!(stdout(&out).contains("hi-there"));
}

#[test]
fn expands_env_from_workspace_block() {
    let mut w = world();
    w.write(
        "tasks.toml",
        "[env]\nWHO = \"world\"\n[tasks.hi]\nrun = \"echo hello $WHO\"\n",
    );
    let out = w.tsr(&["hi"]);
    assert_eq!(code(&out), 0);
    assert!(stdout(&out).contains("hello world"), "{}", stdout(&out));
}

#[test]
fn loads_root_dotenv() {
    let mut w = world();
    w.write(".env", "TOKEN=sekret\n");
    w.write("tasks.toml", "[tasks.show]\nrun = \"echo $TOKEN\"\n");
    let out = w.tsr(&["show"]);
    assert!(stdout(&out).contains("sekret"), "{}", stdout(&out));
}

#[test]
fn env_file_list_overrides_default_dotenv_last_wins() {
    let mut w = world();
    w.write(".env", "FOO=from-default\nSHARED=base\n");
    w.write(".env.local", "FOO=from-local\nONLY_LOCAL=1\n");
    w.write(".env.test", "FOO=from-test\n");
    w.write(
        "tasks.toml",
        "[tasks.test]\n\
         run = \"sh -c 'echo FOO=$FOO SHARED=$SHARED LOCAL=$ONLY_LOCAL'\"\n\
         env_file = [\".env.local\", \".env.test\"]\n",
    );
    let out = w.tsr(&["test"]);
    assert_eq!(code(&out), 0, "stderr {}", stderr(&out));
    assert!(
        stdout(&out).contains("FOO=from-test SHARED=base LOCAL=1"),
        "{}",
        stdout(&out)
    );
}

#[test]
fn env_file_is_scoped_per_task() {
    let mut w = world();
    w.write(".env", "FOO=default\n");
    w.write(".env.test", "FOO=test\n");
    w.write(
        "tasks.toml",
        "[tasks.a]\nrun = \"sh -c 'echo a=$FOO'\"\nenv_file = \".env.test\"\n\
         [tasks.b]\nrun = \"sh -c 'echo b=$FOO'\"\n",
    );
    assert!(stdout(&w.tsr(&["a"])).contains("a=test"));
    assert!(stdout(&w.tsr(&["b"])).contains("b=default"));
}

#[test]
fn env_file_satisfies_the_load_time_run_var_check() {
    let mut w = world();
    w.write(".env.test", "TARGET=prod\n");
    w.write(
        "tasks.toml",
        "[tasks.deploy]\nrun = \"echo deploying-to $TARGET\"\nenv_file = \".env.test\"\n",
    );
    let out = w.tsr(&["deploy"]);
    assert_eq!(code(&out), 0, "stderr {}", stderr(&out));
    assert!(
        stdout(&out).contains("deploying-to prod"),
        "{}",
        stdout(&out)
    );
}

#[test]
fn forwards_passthrough_after_double_dash() {
    let mut w = world();
    w.write(
        "tasks.toml",
        "[tasks.e]\nrun = \"echo\"\nargs = [\"--first\"]\n",
    );
    let out = w.tsr(&["e", "--", "--second"]);
    assert!(
        stdout(&out).contains("--first --second"),
        "{}",
        stdout(&out)
    );
}

#[test]
fn e2e_propagates_exact_child_exit_code() {
    let mut w = world();
    w.write(
        "tasks.toml",
        "[tasks.boom]\ndelegate = { bin = \"sh\", args = [\"-c\", \"exit 7\"] }\n",
    );
    assert_eq!(code(&w.tsr(&["boom"])), 7);
}

#[test]
fn mini_shell_or_recovers() {
    let mut w = world();
    w.write(
        "tasks.toml",
        "[tasks.c]\nrun = \"false || echo recovered\"\n",
    );
    let out = w.tsr(&["c"]);
    assert_eq!(code(&out), 0);
    assert!(stdout(&out).contains("recovered"));
}

#[test]
fn rejected_metachar_is_config_error_64() {
    let mut w = world();
    w.write("tasks.toml", "[tasks.p]\nrun = \"cat a | grep b\"\n");
    let out = w.tsr(&["p"]);
    assert_eq!(code(&out), 64);
    assert!(stderr(&out).contains("pipe"));
}

#[test]
fn undefined_var_is_config_error_64() {
    let mut w = world();
    w.write("tasks.toml", "[tasks.d]\nrun = \"deploy $NOPE_VAR\"\n");
    let out = w.tsr(&["d"]);
    assert_eq!(code(&out), 64);
    assert!(stderr(&out).contains("$NOPE_VAR"));
}

#[test]
fn unknown_task_is_runner_error_64() {
    let mut w = world();
    w.write("tasks.toml", "[tasks.a]\nrun = \"true\"\n");
    let out = w.tsr(&["ghost"]);
    assert_eq!(code(&out), 64);
    assert!(stderr(&out).contains("unknown task"));
}

#[test]
fn dir_and_packages_together_is_config_error_64() {
    let mut w = world();
    w.write(
        "tasks.toml",
        "[tasks.x]\nrun = \"true\"\ndir = \"a\"\npackages = [\"b\"]\n",
    );
    let out = w.tsr(&["x"]);
    assert_eq!(code(&out), 64);
    assert!(stderr(&out).contains("mutually exclusive"));
}

#[test]
fn dependency_cycle_is_config_error_64() {
    let mut w = world();
    w.write(
        "tasks.toml",
        "[tasks.a]\ndeps = [\"b\"]\n[tasks.b]\ndeps = [\"a\"]\n",
    );
    let out = w.tsr(&["a"]);
    assert_eq!(code(&out), 64);
    assert!(stderr(&out).contains("cycle"));
}

#[test]
fn deps_run_first_and_fail_fast() {
    let mut w = world();
    w.write(
        "tasks.toml",
        "[tasks.ci]\ndeps = [\"a\", \"b\"]\n\
         [tasks.a]\nrun = \"false\"\n\
         [tasks.b]\nrun = \"touch b-ran\"\n",
    );
    let out = w.tsr(&["ci"]);
    assert_eq!(code(&out), 1);
    assert!(!w.is_there("b-ran"), "sibling must be skipped on fail-fast");
    assert!(stderr(&out).contains("✗ ci failed"));
}

#[test]
fn what_a_batch_does_not_start_is_recorded_as_skipped() {
    let mut w = world();
    w.write(
        "tasks.toml",
        "[tasks.ci]\ndeps = [\"pre\", \"b\", \"c\", \"pre\"]\n\
         [tasks.pre]\nrun = \"true\"\n\
         [tasks.b]\ndeps = [\"x\", \"y\", \"pre\"]\nrun = \"true\"\n\
         [tasks.x]\nrun = \"false\"\n\
         [tasks.y]\nrun = \"touch y-ran\"\n\
         [tasks.c]\ndeps = [\"y\"]\nrun = \"touch c-ran\"\n",
    );
    let out = w.tsr(&["ci"]);
    assert_eq!(code(&out), 1);
    assert!(!w.is_there("y-ran") && !w.is_there("c-ran"));
    let err = stderr(&out);
    for name in ["y", "c"] {
        let lines: Vec<&str> = err
            .lines()
            .filter(|l| l.trim_start().starts_with(&format!("⊘ {name}")))
            .collect();
        assert_eq!(lines.len(), 1, "{name}: {err}");
        assert!(lines[0].contains("skipped"), "{err}");
    }
    // What has run before is not skipped.
    assert!(!err.contains("⊘ pre"), "{err}");

    let out = w.tsr(&["--no-bail", "ci"]);
    assert_eq!(code(&out), 1);
    assert!(w.is_there("y-ran") && w.is_there("c-ran"));
    assert!(!stderr(&out).contains("skipped"), "{}", stderr(&out));
}

#[test]
fn packages_behind_a_failed_one_are_recorded_as_skipped() {
    let mut w = world();
    w.write(
        "tasks.toml",
        "[workspace]\nmembers = [\"p/*\"]\n\
         [tasks.flat]\npackages = [\"p/*\"]\nrun = \"rm gone\"\n\
         [tasks.deep]\npackages = [\"p/*\"]\ndeps = [\"^deep\"]\nrun = \"rm gone\"\n",
    );
    for name in ["a", "b", "c"] {
        w.write(&format!("p/{name}/package.json"), &format!("{{\"name\": \"{name}\"}}"));
    }
    for task in ["flat", "deep"] {
        w.write("p/a/gone", "");
        let out = w.tsr(&[task]);
        assert_eq!(code(&out), 1, "{}", stderr(&out));
        let err = stderr(&out);
        assert!(err.contains(&format!("✓ {task} (p/a)")), "{err}");
        assert!(err.contains(&format!("✗ {task} (p/b)")), "{err}");
        assert!(err.contains(&format!("⊘ {task} (p/c)")), "{err}");
    }
}

#[test]
fn discovers_root_from_nested_dir() {
    let mut w = world();
    w.write("tasks.toml", "[tasks.hi]\nrun = \"echo found\"\n");
    w.dir("/ws/a/b/c");
    let out = w.tsr_in("/ws/a/b/c", &["hi"]);
    assert_eq!(code(&out), 0);
    assert!(stdout(&out).contains("found"));
}

#[test]
fn list_shows_tasks() {
    let mut w = world();
    w.write(
        "tasks.toml",
        "[tasks.build]\ndelegate = \"turbo\"\n[tasks.dev]\nrun = \"vite\"\n",
    );
    let out = w.tsr(&["--list"]);
    assert_eq!(code(&out), 0);
    let s = stdout(&out);
    assert!(s.contains("build") && s.contains("delegate: turbo"));
    assert!(s.contains("dev") && s.contains("run: vite"));
}

#[test]
fn a_task_named_list_is_not_shadowed_by_a_builtin() {
    let mut w = world();
    w.write(
        "tasks.toml",
        "[tasks.list]\nrun = \"echo iam-the-task\"\n",
    );
    let out = w.tsr(&["list"]);
    assert_eq!(code(&out), 0, "stderr: {}", stderr(&out));
    assert!(stdout(&out).contains("iam-the-task"), "{}", stdout(&out));
}

#[test]
fn packages_fan_out_across_matching_packages() {
    let mut w = world();
    w.shim("/usr/bin", "cargo");
    w.write(
        "tasks.toml",
        "[workspace]\nmembers = [\"crates/*\"]\n[tasks.help]\npackages = [\"crates/*\"]\n",
    );
    w.write("crates/one/Cargo.toml", "[package]\nname = \"one\"\n");
    w.write("crates/two/Cargo.toml", "[package]\nname = \"two\"\n");
    let out = w.tsr(&["help"]);
    assert_eq!(code(&out), 0, "stderr: {}", stderr(&out));
    assert_eq!(stdout(&out).matches("INVOKED cargo help").count(), 2);
}

#[test]
fn nested_package_bin_wins_over_hoisted_root_bin() {
    let mut w = world();
    let tool = |msg: &str| format!("#!/bin/sh\necho {msg}\n");
    w.write("node_modules/.bin/tool", &tool("root-tool"));
    w.write("apps/web/node_modules/.bin/tool", &tool("web-tool"));
    w.write(
        "tasks.toml",
        "[tasks.t]\nrun = \"tool\"\ndir = \"apps/web\"\n",
    );
    let out = w.tsr(&["t"]);
    assert_eq!(code(&out), 0, "stderr: {}", stderr(&out));
    assert!(stdout(&out).contains("web-tool"), "{}", stdout(&out));
}

#[test]
fn init_scaffolds_a_reference_config_with_no_tasks() {
    let mut w = world();
    let out = w.tsr(&["--init"]);
    assert_eq!(code(&out), 0, "stderr: {}", stderr(&out));
    assert!(w.is_there("tasks.toml"));
    assert!(stdout(&out).contains("Created"));

    let text = w.read("/ws/tasks.toml").unwrap();
    assert!(text.contains("https://tsr.opentechf.org/docs"), "{text}");
    let list = w.tsr(&["--list"]);
    assert_eq!(code(&list), 0, "stderr: {}", stderr(&list));
    assert!(
        stdout(&list).contains("No tasks defined"),
        "{}",
        stdout(&list)
    );

    // A second --init must not overwrite.
    let again = w.tsr(&["--init"]);
    assert_eq!(code(&again), 64);
    assert!(stderr(&again).contains("already exists"));
}

#[test]
fn packages_pattern_matching_nothing_is_error_64() {
    let mut w = world();
    w.write(
        "tasks.toml",
        "[workspace]\nmembers = [\"crates/*\"]\n[tasks.t]\npackages = [\"nope/*\"]\n",
    );
    w.write("crates/one/Cargo.toml", "[package]\nname = \"one\"\n");
    let out = w.tsr(&["t"]);
    assert_eq!(code(&out), 64);
    assert!(stderr(&out).contains("matched no"));
}

#[test]
fn resolves_a_local_bin_shim_by_bare_name() {
    let mut w = world();
    w.shim("/ws/node_modules/.bin", "vite");
    w.write(
        "tasks.toml",
        "[tasks.dev]\nrun = \"vite\"\nargs = [\"build\"]\n",
    );
    let out = w.tsr(&["dev"]);
    assert_eq!(code(&out), 0, "stderr {}", stderr(&out));
    assert!(
        stdout(&out).contains("INVOKED vite build"),
        "{}",
        stdout(&out)
    );
}

#[test]
fn bare_task_autodetects_each_ecosystem() {
    let cases: &[(&str, &[(&str, &str)], &str)] = &[
        ("npm", &[("package.json", "{}")], "INVOKED npm run build"),
        (
            "bun",
            &[("package.json", "{}"), ("bun.lock", "")],
            "INVOKED bun run build",
        ),
        (
            "cargo",
            &[("Cargo.toml", "[package]\nname=\"c\"\n")],
            "INVOKED cargo build",
        ),
        ("go", &[("go.mod", "module ex\n")], "INVOKED go build"),
        (
            "uv",
            &[("pyproject.toml", "[project]\nname=\"p\"\n")],
            "INVOKED uv run build",
        ),
    ];
    for (name, markers, expected) in cases {
        let mut w = world();
        for r in ["npm", "bun", "cargo", "go", "uv"] {
            w.shim("/usr/bin", r);
        }
        for (file, contents) in *markers {
            w.write(file, contents);
        }
        w.write("tasks.toml", "[tasks.build]\n");
        let out = w.tsr(&["build"]);
        assert_eq!(code(&out), 0, "{name}: stderr {}", stderr(&out));
        assert!(
            stdout(&out).contains(expected),
            "{name}: expected `{expected}`, stdout {:?} stderr {:?}",
            stdout(&out),
            stderr(&out)
        );
    }
}

#[test]
fn deps_only_task_is_an_aggregator_not_autodetected() {
    let mut w = world();
    w.shim("/usr/bin", "npm");
    w.write("package.json", "{}");
    w.write(
        "tasks.toml",
        "[tasks.ci]\ndeps = [\"a\"]\n[tasks.a]\nrun = \"touch dep-ran\"\n",
    );
    let out = w.tsr(&["ci"]);
    assert_eq!(code(&out), 0, "stderr {}", stderr(&out));
    assert!(w.is_there("dep-ran"), "dependency 'a' should have run");
    assert!(
        !stdout(&out).contains("INVOKED npm"),
        "aggregator must not auto-detect a native runner: {}",
        stdout(&out)
    );
}

#[test]
fn bare_task_without_a_marker_is_runner_error_64() {
    let mut w = world();
    w.write("tasks.toml", "[tasks.build]\n");
    let out = w.tsr(&["build"]);
    assert_eq!(code(&out), 64, "stderr {}", stderr(&out));
    assert!(
        stderr(&out).contains("no recognised ecosystem"),
        "{}",
        stderr(&out)
    );
}

#[test]
fn configless_runs_the_package_native_script() {
    let mut w = world();
    w.shim("/usr/bin", "npm");
    w.write("package.json", "{}");
    let out = w.tsr(&["dev", "--", "--host"]);
    assert_eq!(code(&out), 0, "stderr {}", stderr(&out));
    assert!(
        stdout(&out).contains("INVOKED npm run dev --host"),
        "{}",
        stdout(&out)
    );
}

#[test]
fn configless_walks_up_to_the_nearest_package() {
    let mut w = world();
    w.shim("/usr/bin", "cargo");
    w.write("Cargo.toml", "[package]\nname = \"c\"\n");
    w.dir("/ws/src/deep");
    let out = w.tsr_in("/ws/src/deep", &["build"]);
    assert_eq!(code(&out), 0, "stderr {}", stderr(&out));
    assert!(
        stdout(&out).contains("INVOKED cargo build"),
        "{}",
        stdout(&out)
    );
}

#[test]
fn configless_without_any_marker_is_error_64() {
    let mut w = world();
    let out = w.tsr(&["dev"]);
    assert_eq!(code(&out), 64, "stderr {}", stderr(&out));
    assert!(
        stderr(&out).contains("no 'tasks.toml' found") && stderr(&out).contains("--init"),
        "{}",
        stderr(&out)
    );
}

#[test]
fn tasks_toml_takes_precedence_over_configless() {
    let mut w = world();
    w.write("package.json", "{}");
    w.write(
        "tasks.toml",
        "[tasks.dev]\nrun = \"echo from-config\"\n",
    );
    let out = w.tsr(&["dev"]);
    assert_eq!(code(&out), 0, "stderr {}", stderr(&out));
    assert!(stdout(&out).contains("from-config"), "{}", stdout(&out));
}

// --- builtins and globs ---

#[test]
fn glob_expands_and_builtin_rm_cleans_a_build_dir() {
    let mut w = world();
    w.write("dist/a.js", "");
    w.write("dist/b.js", "");
    w.write("dist/nested/c.js", "");
    w.write("keep.txt", "");
    w.write("tasks.toml", "[tasks.clean]\nrun = \"rm -rf dist/*\"\n");

    let out = w.tsr(&["clean"]);
    assert_eq!(code(&out), 0, "stderr {}", stderr(&out));
    assert!(w.is_dir("/ws/dist"), "the glob matched the entries, not dist");
    assert!(!w.is_there("dist/a.js"));
    assert!(!w.is_there("dist/nested"));
    assert!(w.is_there("keep.txt"));

    // The pattern now matches nothing, and `-f` makes that a success.
    assert_eq!(code(&w.tsr(&["clean"])), 0);
}

#[test]
fn builtins_chain_through_the_mini_shell() {
    let mut w = world();
    w.write("src/one.txt", "hello");
    w.write(
        "tasks.toml",
        "[tasks.build]\nrun = \"mkdir -p out/deep && cp src/*.txt out/deep && touch out/deep/.stamp\"\n",
    );
    let out = w.tsr(&["build"]);
    assert_eq!(code(&out), 0, "stderr {}", stderr(&out));
    assert_eq!(w.read("/ws/out/deep/one.txt").unwrap(), "hello");
    assert!(w.is_file("out/deep/.stamp"));
}

#[test]
fn builtin_shadows_a_binary_of_the_same_name_on_path() {
    let mut w = world();
    w.shim("/usr/bin", "rm");
    w.write("doomed.txt", "");
    w.write("tasks.toml", "[tasks.t]\nrun = \"rm doomed.txt\"\n");

    let out = w.tsr(&["t"]);
    assert_eq!(code(&out), 0, "stderr {}", stderr(&out));
    assert!(
        !stdout(&out).contains("INVOKED"),
        "PATH shim must not run: {}",
        stdout(&out)
    );
    assert!(!w.is_there("doomed.txt"), "the builtin must do the work");
}

#[test]
fn builtin_failure_is_a_normal_task_failure() {
    let mut w = world();
    w.write("tasks.toml", "[tasks.t]\nrun = \"rm ghost.txt\"\n");
    let out = w.tsr(&["t"]);
    assert_eq!(code(&out), 1);
    assert!(stderr(&out).contains("ghost.txt"), "{}", stderr(&out));
}

#[test]
fn globs_resolve_against_the_task_dir() {
    let mut w = world();
    w.write("pkg/a.log", "");
    w.write("outside.log", "");
    w.write(
        "tasks.toml",
        "[tasks.clean]\ndir = \"pkg\"\nrun = \"rm -f *.log\"\n",
    );
    assert_eq!(code(&w.tsr(&["clean"])), 0);
    assert!(!w.is_there("pkg/a.log"));
    assert!(w.is_there("outside.log"), "must not escape 'dir'");
}

#[test]
fn quoted_pattern_is_not_globbed() {
    let mut w = world();
    w.write("a.txt", "");
    w.write("tasks.toml", "[tasks.show]\nrun = \"echo '*.txt'\"\n");
    let out = w.tsr(&["show"]);
    assert_eq!(code(&out), 0, "stderr {}", stderr(&out));
    assert!(stdout(&out).contains("*.txt"), "{}", stdout(&out));
}

#[test]
fn undefined_var_error_underlines_the_reference() {
    let mut w = world();
    w.write(
        "tasks.toml",
        "[tasks.deploy]\nrun = \"deploy --target $TARGET\"\n",
    );
    let out = w.tsr(&["deploy"]);
    assert_eq!(code(&out), 64);
    let err = stderr(&out);
    assert!(err.contains("run = \"deploy --target $TARGET\""), "{err}");
    assert!(err.contains("^^^^^^^"), "{err}");
    assert!(err.contains("'$TARGET' is not defined"), "{err}");
}

#[test]
fn parameter_expansion_is_rejected_with_a_targeted_error() {
    let mut w = world();
    w.write(
        "tasks.toml",
        "[tasks.t]\nrun = \"deploy ${TARGET:-prod}\"\n",
    );
    let out = w.tsr(&["t"]);
    assert_eq!(code(&out), 64);
    assert!(
        stderr(&out).contains("parameter expansion"),
        "{}",
        stderr(&out)
    );
}

#[test]
fn a_glob_sees_files_an_earlier_command_in_the_sequence_created() {
    let mut w = world();
    w.write(
        "tasks.toml",
        "[tasks.t]\nrun = \"touch dist/built.map && rm dist/*.map\"\n",
    );
    w.write("dist/keep.js", "");
    let out = w.tsr(&["t"]);
    assert_eq!(code(&out), 0, "stderr {}", stderr(&out));
    assert!(
        !w.is_there("dist/built.map"),
        "the glob must have matched a file created mid-sequence"
    );
    assert!(w.is_there("dist/keep.js"));
}

#[test]
fn or_true_makes_a_step_non_fatal_without_a_unix_binary() {
    let mut w = world();
    w.write(
        "tasks.toml",
        "[tasks.t]\nrun = \"rm ghost.txt || true\"\n[tasks.f]\nrun = \"true && false\"\n",
    );
    assert_eq!(code(&w.tsr(&["t"])), 0);
    assert_eq!(code(&w.tsr(&["f"])), 1);
}

#[test]
fn brace_expansion_is_rejected_rather_than_silently_passed_through() {
    let mut w = world();
    w.write(
        "tasks.toml",
        "[tasks.c]\nrun = \"rm -rf dist/{js,css}\"\n",
    );
    let out = w.tsr(&["c"]);
    assert_eq!(code(&out), 64);
    assert!(stderr(&out).contains("brace expansion"), "{}", stderr(&out));
}

#[test]
fn braces_without_a_comma_still_work() {
    let mut w = world();
    w.write("tasks.toml", "[tasks.e]\nrun = \"echo --define:{}\"\n");
    let out = w.tsr(&["e"]);
    assert_eq!(code(&out), 0, "stderr {}", stderr(&out));
    assert!(stdout(&out).contains("--define:{}"), "{}", stdout(&out));
}

#[test]
fn globstar_matches_across_directories() {
    let mut w = world();
    w.write("src/one.js", "");
    w.write("src/deep/two.js", "");
    w.write("src/deep/skip.ts", "");
    w.write("tasks.toml", "[tasks.list]\nrun = \"echo src/**/*.js\"\n");
    let out = w.tsr(&["list"]);
    assert_eq!(code(&out), 0, "stderr {}", stderr(&out));
    assert!(
        stdout(&out).contains("src/deep/two.js") && stdout(&out).contains("src/one.js"),
        "{}",
        stdout(&out)
    );
    assert!(!stdout(&out).contains("skip.ts"), "{}", stdout(&out));
}

// --- packages in order: every package's task prints its own directory ---

/// A `package.json` declaring workspace dependencies.
fn manifest(name: &str, deps: &[&str]) -> String {
    let entries = deps
        .iter()
        .map(|d| format!("\"{d}\": \"workspace:*\""))
        .collect::<Vec<_>>()
        .join(", ");
    format!("{{\"name\": \"{name}\", \"dependencies\": {{{entries}}}}}")
}

/// Index of the line naming `rel`, for order assertions.
fn line_of(out: &str, rel: &str) -> usize {
    out.lines()
        .position(|l| l.trim_end().ends_with(rel))
        .unwrap_or_else(|| panic!("no output line for '{rel}' in:\n{out}"))
}

fn ran(out: &str, rel: &str) -> bool {
    out.lines().any(|l| l.trim_end().ends_with(rel))
}

#[test]
fn upstream_deps_run_in_topological_order() {
    let mut w = world();
    w.write("apps/web/package.json", &manifest("web", &["ui"]));
    w.write("packages/ui/package.json", &manifest("ui", &["tokens"]));
    w.write("packages/tokens/package.json", &manifest("tokens", &[]));
    w.write(
        "tasks.toml",
        "[workspace]\nmembers = [\"apps/*\", \"packages/*\"]\n\
         [tasks.build]\npackages = [\"apps/*\", \"packages/*\"]\n\
         deps = [\"^build\"]\nrun = \"pwd\"\n",
    );

    let out = w.tsr(&["build"]);
    assert_eq!(code(&out), 0, "stderr {}", stderr(&out));
    let s = stdout(&out);
    assert!(
        line_of(&s, "packages/tokens") < line_of(&s, "packages/ui"),
        "{s}"
    );
    assert!(line_of(&s, "packages/ui") < line_of(&s, "apps/web"), "{s}");
}

#[test]
fn upstream_deps_reach_packages_outside_the_selection() {
    let mut w = world();
    w.write("apps/web/package.json", &manifest("web", &["ui"]));
    w.write("packages/ui/package.json", &manifest("ui", &[]));
    w.write(
        "tasks.toml",
        "[workspace]\nmembers = [\"apps/*\", \"packages/*\"]\n\
         [tasks.build]\npackages = [\"apps/*\"]\ndeps = [\"^build\"]\nrun = \"pwd\"\n",
    );

    let out = w.tsr(&["build"]);
    assert_eq!(code(&out), 0, "stderr {}", stderr(&out));
    let s = stdout(&out);
    assert!(line_of(&s, "packages/ui") < line_of(&s, "apps/web"), "{s}");
}

#[test]
fn shared_upstream_package_builds_once() {
    let mut w = world();
    w.write("apps/web/package.json", &manifest("web", &["ui"]));
    w.write("apps/admin/package.json", &manifest("admin", &["ui"]));
    w.write("packages/ui/package.json", &manifest("ui", &[]));
    w.write(
        "tasks.toml",
        "[workspace]\nmembers = [\"apps/*\", \"packages/*\"]\n\
         [tasks.build]\npackages = [\"apps/*\", \"packages/*\"]\n\
         deps = [\"^build\"]\nrun = \"pwd\"\n",
    );

    let out = w.tsr(&["build"]);
    assert_eq!(code(&out), 0, "stderr {}", stderr(&out));
    let s = stdout(&out);
    let hits = s
        .lines()
        .filter(|l| l.trim_end().ends_with("packages/ui"))
        .count();
    assert_eq!(hits, 1, "shared upstream should build once:\n{s}");
}

#[test]
fn upstream_failure_skips_the_dependent_package() {
    let mut w = world();
    w.write("apps/web/package.json", &manifest("web", &["ui"]));
    w.write("packages/ui/package.json", &manifest("ui", &[]));
    w.write(
        "tasks.toml",
        "[workspace]\nmembers = [\"apps/*\", \"packages/*\"]\n\
         [tasks.build]\npackages = [\"apps/*\"]\ndeps = [\"^build\"]\nrun = \"false\"\n",
    );

    let out = w.tsr(&["build"]);
    assert_eq!(code(&out), 1, "stderr {}", stderr(&out));
    let all = format!("{}{}", stdout(&out), stderr(&out));
    assert!(all.contains("packages/ui"), "{all}");
    assert!(!all.contains("apps/web"), "web should not have run:\n{all}");
}

#[test]
fn upstream_dep_without_packages_is_a_config_error() {
    let mut w = world();
    w.write("tasks.toml", "[tasks.ci]\ndeps = [\"^build\"]\n");
    let out = w.tsr(&["ci"]);
    assert_eq!(code(&out), 64);
    assert!(
        stderr(&out).contains("requires 'packages'"),
        "{}",
        stderr(&out)
    );
}

#[test]
fn package_dependency_cycle_is_a_runner_error() {
    let mut w = world();
    w.write("packages/a/package.json", &manifest("a", &["b"]));
    w.write("packages/b/package.json", &manifest("b", &["a"]));
    w.write(
        "tasks.toml",
        "[workspace]\nmembers = [\"packages/*\"]\n\
         [tasks.build]\npackages = [\"packages/*\"]\ndeps = [\"^build\"]\nrun = \"pwd\"\n",
    );

    let out = w.tsr(&["build"]);
    assert_eq!(code(&out), 64, "stdout {}", stdout(&out));
    assert!(stderr(&out).contains("cycle"), "{}", stderr(&out));
}

#[test]
fn upstream_marker_can_name_a_different_task() {
    let mut w = world();
    w.write("apps/web/package.json", &manifest("web", &["ui"]));
    w.write("packages/ui/package.json", &manifest("ui", &[]));
    w.write(
        "tasks.toml",
        "[workspace]\nmembers = [\"apps/*\", \"packages/*\"]\n\
         [tasks.build]\npackages = [\"apps/*\"]\ndeps = [\"^codegen\"]\nrun = \"pwd\"\n\
         [tasks.codegen]\npackages = [\"packages/*\"]\nrun = \"pwd\"\n",
    );

    let out = w.tsr(&["build"]);
    assert_eq!(code(&out), 0, "stderr {}", stderr(&out));
    let s = stdout(&out);
    assert!(line_of(&s, "packages/ui") < line_of(&s, "apps/web"), "{s}");
}

// --- what changed since a commit ---

/// A workspace of apps/web -> packages/ui, and an independent apps/docs.
fn affected_workspace(task: &str) -> World {
    let mut w = world();
    w.write("apps/web/package.json", &manifest("web", &["ui"]));
    w.write("apps/docs/package.json", &manifest("docs", &[]));
    w.write("packages/ui/package.json", &manifest("ui", &[]));
    w.write("tasks.toml", task);
    w
}

impl World {
    /// Make the workspace a repository with everything in it committed.
    fn git_baseline(&mut self) {
        self.dir("/ws/.git");
        self.git = Some((Vec::new(), Vec::new()));
    }

    /// Write a file that git has not seen.
    fn write_new(&mut self, rel: &str, body: &str) {
        self.write(rel, body);
        self.git.as_mut().unwrap().1.push(rel.to_string());
    }
}

const FANOUT: &str = "[workspace]\nmembers = [\"apps/*\", \"packages/*\"]\n\
                      [tasks.build]\npackages = [\"apps/*\", \"packages/*\"]\nrun = \"pwd\"\n";

#[test]
fn since_selects_the_changed_package_and_its_dependents() {
    let mut w = affected_workspace(FANOUT);
    w.git_baseline();
    w.write_new("packages/ui/index.ts", "export const x = 1;\n");

    let out = w.tsr(&["build", "--since", "HEAD"]);
    assert_eq!(code(&out), 0, "stderr {}", stderr(&out));
    let s = stdout(&out);
    assert!(ran(&s, "packages/ui"), "changed package must run:\n{s}");
    assert!(ran(&s, "apps/web"), "dependent must run:\n{s}");
    assert!(
        !ran(&s, "apps/docs"),
        "unrelated package must not run:\n{s}"
    );
}

#[test]
fn since_does_not_widen_to_dependencies() {
    let mut w = affected_workspace(FANOUT);
    w.git_baseline();
    w.write_new("apps/web/index.ts", "export const y = 2;\n");

    let out = w.tsr(&["build", "--since", "HEAD"]);
    assert_eq!(code(&out), 0, "stderr {}", stderr(&out));
    let s = stdout(&out);
    assert!(ran(&s, "apps/web"), "{s}");
    assert!(!ran(&s, "packages/ui"), "{s}");
}

#[test]
fn since_still_builds_upstream_packages_for_the_caret_marker() {
    let mut w = affected_workspace(
        "[workspace]\nmembers = [\"apps/*\", \"packages/*\"]\n\
         [tasks.build]\npackages = [\"apps/*\"]\ndeps = [\"^build\"]\nrun = \"pwd\"\n",
    );
    w.git_baseline();
    w.write_new("apps/web/index.ts", "export const y = 2;\n");

    let out = w.tsr(&["build", "--since", "HEAD"]);
    assert_eq!(code(&out), 0, "stderr {}", stderr(&out));
    let s = stdout(&out);
    assert!(ran(&s, "packages/ui"), "upstream must still build:\n{s}");
    assert!(ran(&s, "apps/web"), "{s}");
    assert!(!ran(&s, "apps/docs"), "{s}");
}

#[test]
fn since_counts_untracked_files() {
    let mut w = affected_workspace(FANOUT);
    w.git_baseline();
    w.write_new("apps/docs/new-page.md", "# hi\n");

    let out = w.tsr(&["build", "--since", "HEAD"]);
    assert_eq!(code(&out), 0, "stderr {}", stderr(&out));
    assert!(ran(&stdout(&out), "apps/docs"), "{}", stdout(&out));
}

#[test]
fn since_counts_changed_files() {
    let mut w = affected_workspace(FANOUT);
    w.git_baseline();
    let changed = &mut w.git.as_mut().unwrap().0;
    changed.push("apps/docs/package.json".to_string());

    let out = w.tsr(&["build", "--since", "HEAD"]);
    assert_eq!(code(&out), 0, "stderr {}", stderr(&out));
    assert!(ran(&stdout(&out), "apps/docs"), "{}", stdout(&out));
    assert!(!ran(&stdout(&out), "apps/web"), "{}", stdout(&out));
}

#[test]
fn since_runs_everything_when_a_change_is_outside_every_package() {
    let mut w = affected_workspace(FANOUT);
    w.git_baseline();
    w.write_new("README.md", "# changed\n");

    let out = w.tsr(&["build", "--since", "HEAD"]);
    assert_eq!(code(&out), 0, "stderr {}", stderr(&out));
    let s = stdout(&out);
    for rel in ["apps/web", "apps/docs", "packages/ui"] {
        assert!(ran(&s, rel), "{rel} should run:\n{s}");
    }
}

#[test]
fn since_with_no_changes_runs_nothing_and_succeeds() {
    let mut w = affected_workspace(FANOUT);
    w.git_baseline();

    let out = w.tsr(&["build", "--since", "HEAD"]);
    assert_eq!(code(&out), 0, "stderr {}", stderr(&out));
    let s = stdout(&out);
    assert!(s.contains("no packages selected"), "{s}");
    assert!(!ran(&s, "apps/web"), "{s}");
}

#[test]
fn since_with_an_unknown_ref_is_a_runner_error() {
    let mut w = affected_workspace(FANOUT);
    w.git_baseline();
    let out = w.tsr(&["build", "--since", "no-such-ref-xyz"]);
    assert_eq!(code(&out), 64, "stdout {}", stdout(&out));
    assert!(stderr(&out).contains("git"), "{}", stderr(&out));
}

#[test]
fn since_outside_a_git_repo_is_a_runner_error() {
    let mut w = affected_workspace(FANOUT);
    let out = w.tsr(&["build", "--since", "HEAD"]);
    assert_eq!(code(&out), 64, "stdout {}", stdout(&out));
}

#[test]
fn without_since_every_package_still_runs() {
    let mut w = affected_workspace(FANOUT);
    w.git_baseline();
    let out = w.tsr(&["build"]);
    assert_eq!(code(&out), 0, "stderr {}", stderr(&out));
    let s = stdout(&out);
    for rel in ["apps/web", "apps/docs", "packages/ui"] {
        assert!(ran(&s, rel), "{rel} should run:\n{s}");
    }
}

// --- `^task` across every ecosystem ---

/// Build a workspace whose packages are `(rel, manifest_file, contents)`, run
/// `build` with `^build`, and return the ordered output.
fn topo_order_of(members: &str, pkgs: &[(&str, &str, String)]) -> String {
    let mut w = world();
    for (rel, file, contents) in pkgs {
        w.write(&format!("{rel}/{file}"), contents);
    }
    w.write(
        "tasks.toml",
        &format!(
            "[workspace]\nmembers = [{members}]\n\
             [tasks.build]\npackages = [{members}]\ndeps = [\"^build\"]\nrun = \"pwd\"\n"
        ),
    );
    let out = w.tsr(&["build"]);
    assert_eq!(code(&out), 0, "stderr {}", stderr(&out));
    stdout(&out)
}

#[test]
fn upstream_deps_order_a_cargo_workspace() {
    let s = topo_order_of(
        "\"crates/*\"",
        &[
            (
                "crates/app",
                "Cargo.toml",
                "[package]\nname = \"app\"\n[dependencies]\ncore = { path = \"../core\" }\n"
                    .to_string(),
            ),
            (
                "crates/core",
                "Cargo.toml",
                "[package]\nname = \"core\"\n[dependencies]\nbase = { path = \"../base\" }\n"
                    .to_string(),
            ),
            (
                "crates/base",
                "Cargo.toml",
                "[package]\nname = \"base\"\n".to_string(),
            ),
        ],
    );
    assert!(
        line_of(&s, "crates/base") < line_of(&s, "crates/core"),
        "{s}"
    );
    assert!(
        line_of(&s, "crates/core") < line_of(&s, "crates/app"),
        "{s}"
    );
}

#[test]
fn upstream_deps_follow_cargo_target_specific_dependencies() {
    // A sibling declared only under `[target.'cfg(...)']` is still an edge.
    let s = topo_order_of(
        "\"crates/*\"",
        &[
            (
                "crates/app",
                "Cargo.toml",
                "[package]\nname = \"app\"\n\
                 [target.'cfg(unix)'.dependencies]\nplat = { path = \"../plat\" }\n"
                    .to_string(),
            ),
            (
                "crates/plat",
                "Cargo.toml",
                "[package]\nname = \"plat\"\n".to_string(),
            ),
        ],
    );
    assert!(
        line_of(&s, "crates/plat") < line_of(&s, "crates/app"),
        "{s}"
    );
}

#[test]
fn upstream_deps_order_a_go_workspace() {
    let s = topo_order_of(
        "\"mods/*\"",
        &[
            (
                "mods/api",
                "go.mod",
                "module example.com/api\n\ngo 1.22\n\nrequire (\n\texample.com/lib v0.1.0\n)\n"
                    .to_string(),
            ),
            (
                "mods/lib",
                "go.mod",
                "module example.com/lib\n\ngo 1.22\n".to_string(),
            ),
        ],
    );
    assert!(line_of(&s, "mods/lib") < line_of(&s, "mods/api"), "{s}");
}

#[test]
fn upstream_deps_order_a_python_workspace() {
    let s = topo_order_of(
        "\"pkgs/*\"",
        &[
            (
                "pkgs/app",
                "pyproject.toml",
                "[project]\nname = \"app\"\ndependencies = [\"core>=1.0\"]\n".to_string(),
            ),
            (
                "pkgs/core",
                "pyproject.toml",
                "[project]\nname = \"core\"\n".to_string(),
            ),
        ],
    );
    assert!(line_of(&s, "pkgs/core") < line_of(&s, "pkgs/app"), "{s}");
}

#[test]
fn upstream_deps_follow_cargo_workspace_inheritance() {
    // `alias = { workspace = true }` where the root renames it to `real`.
    let mut w = world();
    w.write(
        "Cargo.toml",
        "[workspace]\nmembers = [\"crates/*\"]\n[workspace.dependencies]\n\
         plain = { path = \"crates/plain\" }\n\
         alias = { package = \"real\", path = \"crates/real\" }\n",
    );
    w.write(
        "crates/app/Cargo.toml",
        "[package]\nname = \"app\"\n[dependencies]\n\
         plain = { workspace = true }\nalias = { workspace = true }\n",
    );
    w.write("crates/plain/Cargo.toml", "[package]\nname = \"plain\"\n");
    w.write("crates/real/Cargo.toml", "[package]\nname = \"real\"\n");
    w.write(
        "tasks.toml",
        "[workspace]\nmembers = [\"crates/*\"]\n\
         [tasks.build]\npackages = [\"crates/*\"]\ndeps = [\"^build\"]\nrun = \"pwd\"\n",
    );

    let out = w.tsr(&["build"]);
    assert_eq!(code(&out), 0, "stderr {}", stderr(&out));
    let s = stdout(&out);
    assert!(
        line_of(&s, "crates/plain") < line_of(&s, "crates/app"),
        "{s}"
    );
    assert!(
        line_of(&s, "crates/real") < line_of(&s, "crates/app"),
        "{s}"
    );
}

// --- --no-bail, --reporter, --resume-from ---

#[test]
fn no_bail_keeps_running_siblings_after_a_failure() {
    let mut w = world();
    w.write("packages/a/package.json", &manifest("a", &[]));
    w.write("packages/b/package.json", &manifest("b", &[]));
    w.write(
        "tasks.toml",
        "[workspace]\nmembers = [\"packages/*\"]\n\
         [tasks.ci]\ndeps = [\"boom\", \"after\"]\n\
         [tasks.boom]\nrun = \"false\"\n\
         [tasks.after]\nrun = \"echo AFTER-RAN\"\n",
    );

    let out = w.tsr(&["ci"]);
    assert_eq!(code(&out), 1, "stderr {}", stderr(&out));
    assert!(!stdout(&out).contains("AFTER-RAN"), "{}", stdout(&out));

    let out = w.tsr(&["ci", "--no-bail"]);
    assert_eq!(code(&out), 1, "stderr {}", stderr(&out));
    assert!(stdout(&out).contains("AFTER-RAN"), "{}", stdout(&out));
}

#[test]
fn no_bail_still_reports_the_failing_exit_code() {
    let mut w = world();
    w.write(
        "tasks.toml",
        "[tasks.ci]\ndeps = [\"a\", \"b\"]\n\
         [tasks.a]\ndelegate = { bin = \"sh\", args = [\"-c\", \"exit 3\"] }\n\
         [tasks.b]\nrun = \"true\"\n",
    );
    let out = w.tsr(&["ci", "--no-bail"]);
    assert_eq!(code(&out), 3, "stderr {}", stderr(&out));
}

fn json_lines(text: &str) -> Vec<serde_json::Value> {
    text.lines()
        .filter(|l| !l.trim().is_empty())
        .map(|l| serde_json::from_str(l).unwrap_or_else(|e| panic!("not JSON: {l:?} ({e})")))
        .collect()
}

#[test]
fn ndjson_reporter_emits_one_json_object_per_line_on_stderr() {
    let mut w = world();
    w.write(
        "tasks.toml",
        "[tasks.ci]\ndeps = [\"a\", \"b\"]\n\
         [tasks.a]\nrun = \"true\"\n[tasks.b]\nrun = \"true\"\n",
    );
    let out = w.tsr(&["ci", "--reporter", "ndjson"]);
    assert_eq!(code(&out), 0, "stderr {}", stderr(&out));

    let lines = json_lines(&stderr(&out));
    assert!(
        lines.len() >= 3,
        "expected task events + summary: {lines:?}"
    );

    let summary = lines.last().unwrap();
    assert_eq!(summary["type"], "summary");
    assert_eq!(summary["status"], "ok");
    assert_eq!(summary["exitCode"], 0);
    assert_eq!(summary["task"], "ci");
    assert!(summary["durationMs"].is_number(), "{summary}");

    let tasks: Vec<&serde_json::Value> = lines.iter().filter(|l| l["type"] == "task").collect();
    assert!(tasks.iter().all(|t| t["status"] == "ok"), "{tasks:?}");
}

#[test]
fn ndjson_reporter_reports_failure_and_exit_code() {
    let mut w = world();
    w.write("tasks.toml", "[tasks.boom]\nrun = \"false\"\n");
    let out = w.tsr(&["boom", "--reporter=ndjson"]);
    assert_eq!(code(&out), 1);

    let lines = json_lines(&stderr(&out));
    let last = lines.last().expect("a summary line");
    assert_eq!(last["status"], "failed");
    assert_eq!(last["exitCode"], 1);
    assert_eq!(last["failed"], 1);
}

#[test]
fn resume_from_skips_packages_ordered_before_it() {
    let mut w = world();
    // tokens -> ui -> web
    w.write("apps/web/package.json", &manifest("web", &["ui"]));
    w.write("packages/ui/package.json", &manifest("ui", &["tokens"]));
    w.write("packages/tokens/package.json", &manifest("tokens", &[]));
    w.write(
        "tasks.toml",
        "[workspace]\nmembers = [\"apps/*\", \"packages/*\"]\n\
         [tasks.build]\npackages = [\"apps/*\", \"packages/*\"]\n\
         deps = [\"^build\"]\nrun = \"pwd\"\n",
    );

    let out = w.tsr(&["build", "--resume-from", "packages/ui"]);
    assert_eq!(code(&out), 0, "stderr {}", stderr(&out));
    let s = stdout(&out);
    assert!(
        !ran(&s, "packages/tokens"),
        "tokens should be skipped:\n{s}"
    );
    assert!(ran(&s, "packages/ui"), "the resume point must run:\n{s}");
    assert!(ran(&s, "apps/web"), "dependents must still run:\n{s}");
}

#[test]
fn resume_from_accepts_a_manifest_name() {
    let mut w = world();
    w.write("apps/web/package.json", &manifest("web", &["ui"]));
    w.write("packages/ui/package.json", &manifest("ui", &[]));
    w.write(
        "tasks.toml",
        "[workspace]\nmembers = [\"apps/*\", \"packages/*\"]\n\
         [tasks.build]\npackages = [\"apps/*\", \"packages/*\"]\n\
         deps = [\"^build\"]\nrun = \"pwd\"\n",
    );
    let out = w.tsr(&["build", "--resume-from=web"]);
    assert_eq!(code(&out), 0, "stderr {}", stderr(&out));
    let s = stdout(&out);
    assert!(!ran(&s, "packages/ui"), "{s}");
    assert!(ran(&s, "apps/web"), "{s}");
}

#[test]
fn resume_from_an_unknown_package_is_a_runner_error() {
    let mut w = world();
    w.write("packages/ui/package.json", &manifest("ui", &[]));
    w.write(
        "tasks.toml",
        "[workspace]\nmembers = [\"packages/*\"]\n\
         [tasks.build]\npackages = [\"packages/*\"]\nrun = \"pwd\"\n",
    );
    let out = w.tsr(&["build", "--resume-from", "packages/nope"]);
    assert_eq!(code(&out), 64, "stdout {}", stdout(&out));
    assert!(
        stderr(&out).contains("matched no workspace package"),
        "{}",
        stderr(&out)
    );
}

#[test]
fn reporter_file_is_not_polluted_by_child_output() {
    let mut w = world();
    w.write(
        "noisy.sh",
        "#!/bin/sh\n\
         echo 'warning: unused variable x' >&2\n\
         echo '{\"level\":\"info\",\"type\":\"summary\",\"msg\":\"child log\"}' >&2\n\
         exit 0\n",
    );
    w.write("tasks.toml", "[tasks.ci]\nrun = \"/ws/noisy.sh\"\n");

    let out = w.tsr(&["ci", "--reporter-file", "results.ndjson"]);
    assert_eq!(code(&out), 0, "stderr {}", stderr(&out));
    assert!(
        stderr(&out).contains("unused variable x"),
        "{}",
        stderr(&out)
    );

    let events = json_lines(&out.events);
    assert!(!events.is_empty(), "no events written");
    assert!(!out.events.contains("child log"), "{}", out.events);
    let summaries: Vec<&serde_json::Value> =
        events.iter().filter(|e| e["type"] == "summary").collect();
    assert_eq!(summaries.len(), 1, "exactly one summary: {events:?}");
    assert_eq!(summaries[0]["exitCode"], 0);
}

#[test]
fn reporter_file_works_without_the_ndjson_reporter() {
    let mut w = world();
    w.write("tasks.toml", "[tasks.ok]\nrun = \"true\"\n");
    let out = w.tsr(&["ok", "--reporter-file", "events.ndjson"]);
    assert_eq!(code(&out), 0, "stderr {}", stderr(&out));
    assert!(!stderr(&out).contains("\"type\""), "{}", stderr(&out));
    assert!(out.events.contains("\"type\":\"summary\""), "{}", out.events);
}

#[test]
fn reporter_file_records_failures_too() {
    let mut w = world();
    w.write("tasks.toml", "[tasks.boom]\nrun = \"false\"\n");
    let out = w.tsr(&["boom", "--reporter-file", "events.ndjson"]);
    assert_eq!(code(&out), 1);
    let events = json_lines(&out.events);
    let last = events.last().unwrap();
    assert_eq!(last["status"], "failed");
    assert_eq!(last["exitCode"], 1);
    assert_eq!(last["failed"], 1);
}

// --- --dry-run ---

#[test]
fn dry_run_prints_the_plan_and_runs_nothing() {
    let mut w = world();
    w.write(
        "tasks.toml",
        "[tasks.build]\nrun = \"touch built.txt\"\n\
         [tasks.ci]\ndeps = [\"build\"]\nrun = \"touch ran.txt\"\n",
    );
    let out = w.tsr(&["ci", "--dry-run"]);
    assert_eq!(code(&out), 0, "stderr {}", stderr(&out));

    let text = stdout(&out);
    let build = text.find("touch built.txt").expect("dep missing from plan");
    let ci = text.find("touch ran.txt").expect("task missing from plan");
    assert!(
        build < ci,
        "deps must print before their dependent:\n{text}"
    );
    assert!(!w.is_there("built.txt"));
    assert!(!w.is_there("ran.txt"));
}

#[test]
fn dry_run_does_not_expand_env_into_the_plan() {
    let mut w = world();
    w.write(".env", "TOKEN=hunter2-should-not-leak\n");
    w.write("tasks.toml", "[tasks.deploy]\nrun = \"echo $TOKEN\"\n");
    let out = w.tsr(&["deploy", "--dry-run"]);
    assert_eq!(code(&out), 0, "stderr {}", stderr(&out));

    let text = format!("{}{}", stdout(&out), stderr(&out));
    assert!(
        !text.contains("hunter2-should-not-leak"),
        "an env value reached the plan:\n{text}"
    );
    assert!(
        text.contains("$TOKEN"),
        "the plan should show the variable as written:\n{text}"
    );
}

#[test]
fn dry_run_forwards_args_and_passthrough_into_the_plan() {
    let mut w = world();
    w.write(
        "tasks.toml",
        "[tasks.test]\nrun = \"vitest\"\nargs = [\"--color\"]\n",
    );
    let out = w.tsr(&["test", "--dry-run", "--", "--watch"]);
    assert_eq!(code(&out), 0, "stderr {}", stderr(&out));
    assert!(
        stdout(&out).contains("vitest --color --watch"),
        "{}",
        stdout(&out)
    );
}

#[test]
fn dry_run_still_reports_a_broken_config() {
    let mut w = world();
    w.write("tasks.toml", "[tasks.a]\ndeps = [\"nope\"]\n");
    let out = w.tsr(&["a", "--dry-run"]);
    assert_eq!(code(&out), 64, "stdout {}", stdout(&out));
}

// --- confinement to the workspace ---

#[test]
fn a_builtin_refuses_to_delete_outside_the_workspace() {
    let mut w = world();
    w.write_at("/ws/outside/keep.txt", "precious");
    w.write(
        "repo/tasks.toml",
        "[tasks.clean]\nrun = \"rm -rf ../outside/keep.txt\"\n",
    );

    let out = w.tsr_in("/ws/repo", &["clean"]);
    assert_ne!(code(&out), 0, "the run should have failed");
    assert!(
        stderr(&out).contains("outside the workspace"),
        "{}",
        stderr(&out)
    );
    assert!(
        w.is_file("outside/keep.txt"),
        "the file outside the workspace was deleted"
    );
}

#[test]
fn allow_paths_permits_a_builtin_outside_the_workspace() {
    let mut w = world();
    w.dir("/ws/cache");
    w.write(
        "repo/tasks.toml",
        "[security]\nallow_paths = [\"../cache\"]\n\n\
         [tasks.stamp]\nrun = \"touch ../cache/stamp\"\n",
    );

    let out = w.tsr_in("/ws/repo", &["stamp"]);
    assert_eq!(code(&out), 0, "stderr {}", stderr(&out));
    assert!(w.is_file("cache/stamp"));
}

#[test]
fn a_task_dir_outside_the_workspace_is_rejected_at_load() {
    let mut w = world();
    w.dir("/ws/repo/sub");
    w.write(
        "repo/tasks.toml",
        "[tasks.build]\nrun = \"touch marker\"\ndir = \"../\"\n",
    );

    let out = w.tsr_in("/ws/repo", &["build"]);
    assert_eq!(code(&out), 64, "stdout {}", stdout(&out));
    assert!(
        stderr(&out).contains("outside the workspace"),
        "{}",
        stderr(&out)
    );
    assert!(!w.is_there("marker"), "nothing should have run");
}

#[test]
fn an_env_file_outside_the_workspace_is_rejected_at_load() {
    let mut w = world();
    w.write("secrets.env", "TOKEN=leak\n");
    w.write(
        "repo/tasks.toml",
        "[tasks.deploy]\nrun = \"true\"\nenv_file = \"../secrets.env\"\n",
    );

    let out = w.tsr_in("/ws/repo", &["deploy"]);
    assert_eq!(code(&out), 64, "stdout {}", stdout(&out));
    assert!(
        stderr(&out).contains("outside the workspace"),
        "{}",
        stderr(&out)
    );
}

#[test]
fn workspace_members_outside_the_workspace_are_rejected() {
    let mut w = world();
    w.write(
        "repo/tasks.toml",
        "[workspace]\nmembers = [\"../*\"]\n\n[tasks.test]\npackages = [\"*\"]\n",
    );

    let out = w.tsr_in("/ws/repo", &["test"]);
    assert_eq!(code(&out), 64, "stdout {}", stdout(&out));
    assert!(
        stderr(&out).contains("outside the workspace"),
        "{}",
        stderr(&out)
    );
}

#[test]
fn a_glob_inside_the_workspace_is_still_allowed() {
    let mut w = world();
    w.write("tasks.toml", "[tasks.clean]\nrun = \"rm -rf dist/*\"\n");
    w.write("dist/a.js", "");
    let out = w.tsr(&["clean"]);
    assert_eq!(code(&out), 0, "stderr {}", stderr(&out));
    assert!(!w.is_there("dist/a.js"));
}

// --- guarded environment variables ---

#[test]
fn a_config_cannot_set_a_guarded_variable() {
    let mut w = world();
    w.write(
        "tasks.toml",
        "[env]\nLD_PRELOAD = \"./evil.so\"\n\n[tasks.test]\nrun = \"touch ran.txt\"\n",
    );
    let out = w.tsr(&["test"]);
    assert_eq!(code(&out), 64, "stdout {}", stdout(&out));
    assert!(stderr(&out).contains("LD_PRELOAD"), "{}", stderr(&out));
    assert!(
        stderr(&out).contains("--allow-unsafe-env"),
        "the error must name the opt-in: {}",
        stderr(&out)
    );
    assert!(!w.is_there("ran.txt"), "nothing should have run");
}

#[test]
fn a_dotenv_cannot_set_a_guarded_variable() {
    let mut w = world();
    w.write(".env", "NODE_OPTIONS=--require ./evil.js\n");
    w.write("tasks.toml", "[tasks.test]\nrun = \"touch ran.txt\"\n");
    let out = w.tsr(&["test"]);
    assert_eq!(code(&out), 64, "stdout {}", stdout(&out));
    assert!(stderr(&out).contains("NODE_OPTIONS"), "{}", stderr(&out));
    assert!(!w.is_there("ran.txt"));
}

#[test]
fn allow_unsafe_env_lifts_the_guard() {
    let mut w = world();
    w.write(
        "tasks.toml",
        "[env]\nNODE_OPTIONS = \"--max-old-space-size=4096\"\n\n\
         [tasks.test]\nrun = \"touch ran.txt\"\n",
    );
    let out = w.tsr(&["test", "--allow-unsafe-env"]);
    assert_eq!(code(&out), 0, "stderr {}", stderr(&out));
    assert!(w.is_file("ran.txt"));
}

#[test]
fn path_may_be_extended_but_not_replaced() {
    let mut w = world();
    w.write(
        "tasks.toml",
        "[env]\nPATH = \"./bin:$PATH\"\n\n[tasks.test]\nrun = \"touch ran.txt\"\n",
    );
    assert_eq!(code(&w.tsr(&["test"])), 0, "extending PATH must work");
    assert!(w.is_file("ran.txt"));

    let mut w2 = world();
    w2.write(
        "tasks.toml",
        "[env]\nPATH = \"/only/mine\"\n\n[tasks.test]\nrun = \"touch ran.txt\"\n",
    );
    let out = w2.tsr(&["test"]);
    assert_eq!(code(&out), 64, "stdout {}", stdout(&out));
    assert!(stderr(&out).contains("PATH"), "{}", stderr(&out));
    assert!(!w2.is_there("ran.txt"));
}

// --- discovery ---

#[test]
fn discovery_does_not_climb_past_the_repository() {
    let mut w = world();
    w.write(
        "tasks.toml",
        "[tasks.pwn]\nrun = \"touch pwned.txt\"\n",
    );
    w.dir("/ws/repo/.git");
    w.dir("/ws/repo/src");

    let out = w.tsr_in("/ws/repo/src", &["pwn"]);
    assert_eq!(code(&out), 64, "stdout {}", stdout(&out));
    assert!(!w.is_there("pwned.txt"));

    // The repository's own config is still found from a nested directory.
    w.write(
        "repo/tasks.toml",
        "[tasks.own]\nrun = \"touch ran.txt\"\n",
    );
    let out = w.tsr_in("/ws/repo/src", &["own"]);
    assert_eq!(code(&out), 0, "stderr {}", stderr(&out));
    assert!(w.is_file("repo/ran.txt"));
}

#[test]
fn a_world_writable_config_is_refused() {
    let mut w = world();
    w.write("tasks.toml", "[tasks.t]\nrun = \"touch ran.txt\"\n");
    w.file_mode = 0o100666;

    let out = w.tsr(&["t"]);
    assert_eq!(code(&out), 64, "stdout {}", stdout(&out));
    assert!(stderr(&out).contains("world-writable"), "{}", stderr(&out));
    assert!(!w.is_there("ran.txt"));
}

// --- the engine ---

fn run_task(toml: &str, task: &str) -> i32 {
    let mut w = world();
    w.write("tasks.toml", toml);
    code(&w.tsr(&[task]))
}

#[test]
fn single_run_task_succeeds() {
    assert_eq!(run_task("[tasks.ok]\nrun = \"true\"\n", "ok"), 0);
}

#[test]
fn single_run_task_propagates_failure_code() {
    assert_eq!(run_task("[tasks.bad]\nrun = \"false\"\n", "bad"), 1);
}

#[test]
fn exec_propagates_exact_child_exit_code() {
    let toml = "[tasks.x]\ndelegate = { bin = \"sh\", args = [\"-c\", \"exit 3\"] }\n";
    assert_eq!(run_task(toml, "x"), 3);
}

#[test]
fn missing_binary_is_runner_error_64() {
    let toml = "[tasks.x]\nrun = \"definitely-not-a-real-binary-xyz\"\n";
    assert_eq!(run_task(toml, "x"), 64);
}

#[test]
fn deps_run_before_task_and_fail_fast_sequentially() {
    let mut w = world();
    w.write(
        "tasks.toml",
        "[tasks.ci]\ndeps = [\"a\", \"b\"]\n\
         [tasks.a]\nrun = \"false\"\n\
         [tasks.b]\nrun = \"touch /ws/b-ran\"\n",
    );
    assert_eq!(code(&w.tsr(&["ci"])), 1);
    assert!(!w.is_there("b-ran"), "sibling 'b' should not have run");
}

#[test]
fn aggregator_runs_only_its_deps() {
    let mut w = world();
    w.write(
        "tasks.toml",
        "[tasks.top]\ndeps = [\"a\"]\n[tasks.a]\nrun = \"touch /ws/a-ran\"\n",
    );
    assert_eq!(code(&w.tsr(&["top"])), 0);
    assert!(w.is_there("a-ran"));
}

#[test]
fn diamond_runs_shared_dep_once() {
    let mut w = world();
    w.write(
        "tasks.toml",
        "[tasks.top]\ndeps = [\"a\", \"b\"]\nparallel = true\n\
         [tasks.a]\ndeps = [\"base\"]\n\
         [tasks.b]\ndeps = [\"base\"]\n\
         [tasks.base]\ndelegate = { bin = \"sh\", args = [\"-c\", \"echo x >> /ws/base-log\"] }\n",
    );
    assert_eq!(code(&w.tsr(&["top"])), 0);
    let contents = w.read("/ws/base-log").unwrap();
    assert_eq!(contents.lines().count(), 1, "base must run exactly once");
}

#[test]
fn parallel_batch_all_succeed() {
    let toml = "[tasks.top]\ndeps = [\"a\", \"b\"]\nparallel = true\n\
                [tasks.a]\nrun = \"true\"\n[tasks.b]\nrun = \"true\"\n";
    assert_eq!(run_task(toml, "top"), 0);
}

#[test]
fn no_bail_does_not_kill_a_parallel_sibling() {
    let mut w = world();
    w.shim("/usr/bin", "sleep");
    w.write(
        "tasks.toml",
        "[tasks.top]\ndeps = [\"fast\", \"slow\"]\nparallel = true\n\
         [tasks.fast]\nrun = \"false\"\n\
         [tasks.slow]\nrun = \"sleep 1 && touch /ws/slow-finished\"\n",
    );
    assert_eq!(
        code(&w.tsr(&["top", "--no-bail"])),
        1,
        "the first failure still propagates"
    );
    assert!(
        w.is_there("slow-finished"),
        "--no-bail must let a parallel sibling finish"
    );
}

#[test]
fn no_bail_runs_every_package_of_a_failing_fan_out() {
    let mut w = world();
    for pkg in ["a", "b"] {
        w.write(
            &format!("packages/{pkg}/package.json"),
            &format!("{{\"name\":\"{pkg}\"}}"),
        );
    }
    w.write(
        "tasks.toml",
        "[workspace]\nmembers = [\"packages/*\"]\n\
         [tasks.build]\npackages = [\"packages/*\"]\nrun = \"false\"\n",
    );
    let out = w.tsr(&["build", "--no-bail", "--reporter=ndjson"]);
    assert_eq!(code(&out), 1);
    // Both packages were attempted, not just the first.
    let lines = json_lines(&stderr(&out));
    let tasks = lines.iter().filter(|l| l["type"] == "task").count();
    assert_eq!(tasks, 2);
}

fn job_of(toml: &str, key: &str, markers: Markers, passthrough: &[&str]) -> Job {
    let cfg = Config::load(toml, "/ws").unwrap();
    let facts = facts_of(markers);
    let task = cfg.task(key).unwrap();
    build_job(&cfg, task, "/ws", key, &strings(passthrough), &facts).unwrap()
}

fn facts_of(markers: Markers) -> Facts {
    Facts {
        markers,
        process: EnvMap::new(),
        dotenv: Vec::new(),
        files: Vec::new(),
        bins: Vec::new(),
        sep: ':',
    }
}

#[test]
fn there_are_no_jobs_where_one_of_them_cannot_be_made() {
    let mut w = world();
    w.write("a/Cargo.toml", "");
    w.write("b/readme", "");
    w.write("c/go.mod", "");
    let cfg = Config::load("[tasks.test]\npackages = [\"*\"]\n", "/ws").unwrap();
    let task = cfg.task("test").unwrap();
    let jobs = |dirs: &[&str]| {
        let places = dirs
            .iter()
            .map(|d| Place {
                dir: format!("/ws/{d}"),
                label: format!("test ({d})"),
                facts: facts_of(w.markers(&format!("/ws/{d}"))),
            })
            .collect();
        build_jobs(&cfg, task, &places, &strings(&["-q"]))
    };
    let made = jobs(&["a", "c"]).unwrap_or_default();
    assert_eq!(made.len(), 2);
    assert_eq!(made[1].label, "test (c)");
    assert_eq!(made[1].dir, "/ws/c");
    match &made[1].action {
        Action::Spawn { program, args } => {
            assert_eq!(program, "go");
            assert_eq!(args, &["test", "-q"]);
        }
        _ => panic!("expected a program"),
    }
    match jobs(&["a", "b", "c"]) {
        Ok(_) => panic!("expected an error"),
        Err(m) => assert!(m.contains("no recognised ecosystem in '/ws/b'"), "{m}"),
    }
}

fn argv(cmd: &ExpandedCommand) -> Vec<String> {
    let none = cmd.glob_queries("/ws").iter().map(|_| None).collect();
    cmd.argv("/ws", &none)
}

#[test]
fn passthrough_and_args_ordering() {
    let w = world();
    let toml = "[tasks.t]\nrun = \"vitest\"\nargs = [\"--color\"]\n";
    let job = job_of(toml, "t", w.markers("/ws"), &["--watch"]);
    match job.action {
        Action::Shell(plan) => {
            assert!(plan.rest.is_empty(), "a plain `run` is a one-command plan");
            assert_eq!(argv(&plan.first), vec!["vitest", "--color", "--watch"]);
        }
        _ => panic!("expected a run-string plan"),
    }
}

#[test]
fn passthrough_appends_to_the_last_command_of_a_sequence() {
    let w = world();
    let toml = "[tasks.t]\nrun = \"build && vitest\"\nargs = [\"--color\"]\n";
    let job = job_of(toml, "t", w.markers("/ws"), &["--watch"]);
    match job.action {
        Action::Shell(plan) => {
            assert_eq!(argv(&plan.first), vec!["build"]);
            assert_eq!(argv(&plan.rest[0].1), vec!["vitest", "--color", "--watch"]);
        }
        _ => panic!("expected a run-string plan"),
    }
}

#[test]
fn native_runner_gets_args_and_passthrough() {
    let mut w = world();
    w.write("package.json", "{}");
    let toml = "[tasks.test]\nargs = [\"--ci\"]\n";
    let job = job_of(toml, "test", w.markers("/ws"), &["--watch"]);
    match job.action {
        Action::Spawn { program, args } => {
            assert_eq!(program, "npm");
            assert_eq!(args, vec!["run", "test", "--ci", "--watch"]);
        }
        _ => panic!(),
    }
}

#[test]
fn builtins_run_in_process_for_run_strings() {
    let mut w = world();
    w.write(
        "tasks.toml",
        "[tasks.t]\nrun = \"mkdir -p out/nested && touch out/nested/x\"\n",
    );
    assert_eq!(code(&w.tsr(&["t"])), 0);
    assert!(w.is_file("out/nested/x"));
}

#[test]
fn builtins_receive_glob_expanded_arguments() {
    let mut w = world();
    w.write("tasks.toml", "[tasks.clean]\nrun = \"rm -rf dist/*\"\n");
    w.dir("/ws/dist/keep");
    w.write("dist/a.js", "");
    w.write("dist/b.js", "");
    assert_eq!(code(&w.tsr(&["clean"])), 0);
    assert!(w.is_dir("/ws/dist"));
    assert!(!w.is_there("dist/a.js"));
    assert!(!w.is_there("dist/keep"));
    // And it stays a success once there is nothing left to match.
    assert_eq!(code(&w.tsr(&["clean"])), 0);
}

#[test]
fn globs_resolve_against_the_task_dir_not_the_process_cwd() {
    let mut w = world();
    w.write(
        "tasks.toml",
        "[tasks.clean]\ndir = \"pkg\"\nrun = \"rm -f *.log\"\n",
    );
    w.write("pkg/a.log", "");
    w.write("outside.log", "");
    assert_eq!(code(&w.tsr(&["clean"])), 0);
    assert!(!w.is_there("pkg/a.log"));
    assert!(w.is_there("outside.log"), "must not escape 'dir'");
}

#[test]
fn builtin_failure_propagates_its_exit_code() {
    assert_eq!(run_task("[tasks.t]\nrun = \"rm ghost.txt\"\n", "t"), 1);
}

#[test]
fn parallel_fail_fast_kills_slow_sibling() {
    let mut w = world();
    w.shim("/usr/bin", "sleep");
    w.write(
        "tasks.toml",
        "[tasks.top]\ndeps = [\"fast\", \"slow\"]\nparallel = true\n\
         [tasks.fast]\nrun = \"false\"\n\
         [tasks.slow]\nrun = \"sleep 5\"\n",
    );
    let out = w.tsr(&["top"]);
    assert_eq!(code(&out), 1);
    assert!(
        !stdout(&out).contains("INVOKED sleep"),
        "slow sibling not killed"
    );
}

#[test]
fn forwarded_arguments_are_no_patterns() {
    let mut w = world();
    w.write("a.txt", "");
    w.write("tasks.toml", "[tasks.t]\nrun = \"echo *.txt && echo\"\n");
    let out = w.tsr(&["t", "--", "*.txt", "$HOME"]);
    assert_eq!(stdout(&out), "a.txt\n*.txt $HOME\n");
}
