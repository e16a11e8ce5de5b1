//! The config editor: its form, its keys, its pictures.

use toml_edit::DocumentMut;
use tsr::config::{validate_str, Config};
use tsr::detect::Markers;
use tsr::edit::split_comment;
use tsr::form::{
    join_env, parse_env, split_csv, split_ws, Field, FormState, FIELDS,
};
use tsr::preview::{build_graph_lines, dry_run, root_tasks, Line};
use tsr::screen::Preview;
use tsr::toml::{read, Toml};
use tsr::tui::{
    apply_form, describe, judge, task_keys, App, Key, ListPurpose, MenuItem, Mode, MENU_ITEMS,
};

fn form_with(fields: &[(Field, &str)], choices: &[(Field, usize)]) -> FormState {
    let mut f = FormState::new_task();
    for (i, v) in fields {
        f.set_text(*i, v);
    }
    for (i, v) in choices {
        f.set_choice(*i, *v);
    }
    f
}

fn entries(doc: &DocumentMut) -> Vec<(String, Toml)> {
    read(&doc.to_string()).unwrap()
}

#[test]
fn builds_run_task_and_validates() {
    let f = form_with(
        &[(Field::Name, "dev"), (Field::Run, "vite --host")],
        &[(Field::Kind, 0)],
    );
    let mut doc = DocumentMut::new();
    let name = apply_form(&mut doc, &f).unwrap();
    assert_eq!(name, "dev");
    validate_str(&doc.to_string()).unwrap();
    assert!(doc.to_string().contains("[tasks.dev]"));
    assert!(doc.to_string().contains("run = \"vite --host\""));
}

#[test]
fn builds_delegate_table_with_args() {
    let f = form_with(
        &[
            (Field::Name, "bundle"),
            (Field::Bin, "make"),
            (Field::BinArgs, "bundle prod"),
        ],
        &[(Field::Kind, 2)],
    );
    let mut doc = DocumentMut::new();
    apply_form(&mut doc, &f).unwrap();
    let s = doc.to_string();
    assert!(
        s.contains("delegate = { bin = \"make\", args = [\"bundle\", \"prod\"] }"),
        "{s}"
    );
}

#[test]
fn builds_packages_deps_parallel_env() {
    let mut f = form_with(
        &[
            (Field::Name, "test"),
            (Field::Packages, "apps/*, packages/ui"),
            (Field::Deps, "lint, build"),
            (Field::Env, "CI=true, LOG=debug"),
        ],
        &[(Field::Kind, 3), (Field::Location, 2)],
    );
    f.set_toggle(Field::Parallel, true);
    let mut doc = DocumentMut::new();
    apply_form(&mut doc, &f).unwrap();
    validate_str(&doc.to_string()).unwrap();
    let s = doc.to_string();
    assert!(
        s.contains("packages = [\"apps/*\", \"packages/ui\"]"),
        "{s}"
    );
    assert!(s.contains("deps = [\"lint\", \"build\"]"), "{s}");
    assert!(s.contains("parallel = true"), "{s}");
    assert!(s.contains("CI = \"true\""), "{s}");
}

#[test]
fn env_file_serializes_string_or_array_and_round_trips() {
    // Several paths become an array.
    let f = form_with(
        &[
            (Field::Name, "test"),
            (Field::Run, "vitest"),
            (Field::EnvFile, ".env.local, .env.test"),
        ],
        &[(Field::Kind, 0)],
    );
    let mut doc = DocumentMut::new();
    apply_form(&mut doc, &f).unwrap();
    validate_str(&doc.to_string()).unwrap();
    assert!(
        doc.to_string()
            .contains("env_file = [\".env.local\", \".env.test\"]"),
        "{}",
        doc.to_string()
    );

    // A single path becomes a plain string, and it survives an edit.
    let one = form_with(
        &[
            (Field::Name, "t"),
            (Field::Run, "vitest"),
            (Field::EnvFile, ".env.test"),
        ],
        &[(Field::Kind, 0)],
    );
    let mut doc2 = DocumentMut::new();
    apply_form(&mut doc2, &one).unwrap();
    assert!(doc2.to_string().contains("env_file = \".env.test\""));
    let back = FormState::from_doc(&entries(&doc2), "t");
    assert_eq!(back.text(Field::EnvFile), ".env.test");
}

#[test]
fn preserves_comments_and_other_tasks() {
    let src = "# top comment\n[tasks.keep]\nrun = \"echo hi\" # inline\n";
    let mut doc = src.parse::<DocumentMut>().unwrap();
    let f = form_with(
        &[(Field::Name, "added"), (Field::Run, "true")],
        &[(Field::Kind, 0)],
    );
    apply_form(&mut doc, &f).unwrap();
    let s = doc.to_string();
    assert!(s.contains("# top comment"));
    assert!(s.contains("# inline"));
    assert!(s.contains("[tasks.keep]") && s.contains("[tasks.added]"));
}

#[test]
fn rejects_dir_and_packages_conflict_via_validation() {
    // The location is one of three, so a form never names both.
    let f = form_with(
        &[
            (Field::Name, "x"),
            (Field::Run, "true"),
            (Field::Dir, "apps/web"),
        ],
        &[(Field::Kind, 0), (Field::Location, 1)],
    );
    let mut doc = DocumentMut::new();
    apply_form(&mut doc, &f).unwrap();
    assert!(validate_str(&doc.to_string()).is_ok());
}

#[test]
fn rejects_bad_name() {
    let f = form_with(
        &[(Field::Name, "bad name"), (Field::Run, "true")],
        &[(Field::Kind, 0)],
    );
    let mut doc = DocumentMut::new();
    assert!(apply_form(&mut doc, &f).is_err());
    assert_eq!(doc.to_string(), "");
}

fn preview_cfg(text: &str) -> Config {
    Config::parse_str(text, "/ws").unwrap()
}

const NONE: Markers = Markers {
    package_json: false,
    bun_lock: false,
    cargo_toml: false,
    go_mod: false,
    pyproject_toml: false,
};

fn all_text(lines: &[Line]) -> String {
    lines
        .iter()
        .map(|l| l.plain())
        .collect::<Vec<_>>()
        .join("\n")
}

fn graph_text(cfg: &Config, focus: Option<&str>) -> String {
    let marks = cfg.tasks.iter().map(|_| NONE).collect();
    all_text(&build_graph_lines(cfg, focus, &marks))
}

#[test]
fn dry_run_resolves_each_form() {
    let cfg = preview_cfg(
        "[tasks.dev]\nrun = \"vite\"\nargs = [\"--host\"]\n\
         [tasks.build]\ndelegate = \"turbo\"\n\
         [tasks.bundle]\ndelegate = { bin = \"make\", args = [\"bundle\"] }\n\
         [tasks.ci]\ndeps = [\"build\"]\n\
         [tasks.detect]\n",
    );
    let run = |key: &str| dry_run(&cfg, cfg.task(key).unwrap(), &NONE);
    assert_eq!(run("dev"), "→ vite --host");
    assert_eq!(run("build"), "→ turbo run build");
    assert_eq!(run("bundle"), "→ make bundle");
    assert_eq!(run("ci"), "runs its deps only");
    assert_eq!(run("detect"), "→ auto-detect (native runner)");
}

#[test]
fn dry_run_annotates_packages_fan_out() {
    let cfg = preview_cfg(
        "[workspace]\nmembers = [\"apps/*\"]\n\
         [tasks.test]\nrun = \"vitest\"\npackages = [\"apps/*\"]\n",
    );
    assert_eq!(
        dry_run(&cfg, cfg.task("test").unwrap(), &NONE),
        "→ vitest   × packages [apps/*]"
    );
}

#[test]
fn roots_exclude_depended_on_tasks() {
    let cfg = preview_cfg(
        "[tasks.ci]\ndeps = [\"lint\", \"test\"]\n\
         [tasks.lint]\nrun = \"true\"\n[tasks.test]\nrun = \"true\"\n\
         [tasks.standalone]\nrun = \"true\"\n",
    );
    assert_eq!(root_tasks(&cfg), vec!["ci", "standalone"]);
}

#[test]
fn graph_lines_draw_connected_tree() {
    let cfg = preview_cfg(
        "[tasks.ci]\ndeps = [\"lint\", \"build\"]\nparallel = true\n\
         [tasks.lint]\nrun = \"eslint .\"\n\
         [tasks.build]\ndelegate = \"turbo\"\n",
    );
    let text = graph_text(&cfg, Some("ci"));
    assert!(text.contains("● ci"), "{text}");
    assert!(text.contains("⇉ parallel"), "{text}");
    assert!(
        text.contains("├─ ● lint") && text.contains("→ eslint ."),
        "{text}"
    );
    assert!(
        text.contains("└─ ● build") && text.contains("→ turbo run build"),
        "{text}"
    );
}

#[test]
fn graph_marks_undefined_deps_and_cycles() {
    let missing = preview_cfg("[tasks.a]\ndeps = [\"ghost\"]\n[tasks.b]\nrun = \"true\"\n");
    assert!(graph_text(&missing, Some("a")).contains("(undefined task)"));

    // a -> b -> a is a cycle; the tree must break it.
    let cyclic = preview_cfg("[tasks.a]\ndeps = [\"b\"]\n[tasks.b]\ndeps = [\"a\"]\n");
    assert!(graph_text(&cyclic, Some("a")).contains("(cycle)"));
}

#[test]
fn every_root_is_drawn_without_a_focus() {
    let cfg = preview_cfg(
        "[tasks.ci]\ndeps = [\"lint\"]\n[tasks.lint]\nrun = \"l\"\n[tasks.alone]\nrun = \"x\"\n",
    );
    let text = graph_text(&cfg, None);
    for key in ["● ci", "● lint", "● alone"] {
        assert!(text.contains(key), "{text}");
    }
}

#[test]
fn delegate_workflow_preselects_delegate_type() {
    let form = FormState::new_delegate();
    assert_eq!(form.choice(Field::Kind), 1);

    let mut f = form;
    f.set_text(Field::Name, "build");
    f.set_text(Field::Bin, "turbo");
    let mut doc = DocumentMut::new();
    apply_form(&mut doc, &f).unwrap();
    validate_str(&doc.to_string()).unwrap();
    assert!(doc.to_string().contains("delegate = \"turbo\""));
}

fn app_at(src: &str) -> App {
    App::new("/ws/tasks.toml", "/ws", src.parse::<DocumentMut>().unwrap())
}

#[test]
fn enter_writes_the_task_straight_to_disk() {
    let mut app = app_at("");
    let mut form = FormState::new_task();
    form.set_text(Field::Name, "dev");
    form.set_text(Field::Run, "vite");
    app.mode = Mode::Form(form);

    let on_disk = app.on_key(Key::Enter, false).expect("the form autosaves");
    assert!(on_disk.contains("run = \"vite\""), "{on_disk}");
    app.written(None);
    assert!(matches!(app.mode, Mode::Menu));
    assert_eq!(app.tasks, vec!["dev"]);
}

#[test]
fn a_form_stays_open_when_the_file_cannot_be_written() {
    let mut app = app_at("");
    let mut form = FormState::new_task();
    form.set_text(Field::Name, "dev");
    form.set_text(Field::Run, "vite");
    app.mode = Mode::Form(form);
    assert!(app.on_key(Key::Enter, false).is_some());
    app.written(Some("disk full".to_string()));
    match &app.mode {
        Mode::Form(f) => assert_eq!(
            f.error.as_deref(),
            Some("write failed: /ws/tasks.toml — disk full")
        ),
        other => panic!("unexpected {other:?}"),
    }
}

#[test]
fn deleting_a_task_writes_the_file() {
    let mut app = app_at("[tasks.dev]\nrun = \"vite\"\n[tasks.ci]\nrun = \"x\"\n");
    app.mode = Mode::ConfirmDelete("dev".into());
    let on_disk = app.on_key(Key::Char('y'), false).unwrap();
    app.written(None);
    assert_eq!(app.tasks, vec!["ci"]);
    assert!(!on_disk.contains("[tasks.dev]"), "{on_disk}");
    assert!(on_disk.contains("[tasks.ci]"), "{on_disk}");
}

#[test]
fn cancelling_a_delete_leaves_the_file_alone() {
    let mut app = app_at("[tasks.dev]\nrun = \"vite\"\n");
    app.mode = Mode::ConfirmDelete("dev".into());
    let write = app.on_key(Key::Char('n'), false);
    assert_eq!(app.tasks, vec!["dev"]);
    assert!(write.is_none(), "cancelling must not write anything");
}

#[test]
fn form_enter_keeps_the_form_open_on_a_validation_error() {
    let mut app = app_at("");
    app.mode = Mode::Form(FormState::new_task());
    let write = app.on_key(Key::Enter, false);
    match &app.mode {
        Mode::Form(f) => assert!(f.error.is_some(), "expected an inline error"),
        _ => panic!("form should stay open on an invalid apply"),
    }
    assert!(write.is_none());
}

#[test]
fn typing_in_a_form_field_does_not_write() {
    let mut app = app_at("");
    app.mode = Mode::Form(FormState::new_task());
    for c in "start".chars() {
        assert!(app.on_key(Key::Char(c), false).is_none());
    }
    match &app.mode {
        Mode::Form(f) => assert_eq!(f.text(Field::Name), "start"),
        _ => panic!("form should still be open"),
    }
}

#[test]
fn quitting_needs_no_confirmation() {
    let mut app = app_at("[tasks.dev]\nrun = \"vite\"\n");
    app.on_key(Key::Char('q'), false);
    assert!(app.quit);
}

#[test]
fn menu_has_a_hint_for_every_item() {
    for i in 0..MENU_ITEMS {
        let (label, hint) = MenuItem::at(i).label_hint();
        assert!(!label.is_empty());
        assert!(!hint.is_empty());
    }
}

#[test]
fn round_trips_existing_task_into_form() {
    let src = "[tasks.\"web#build\"]\ndelegate = { bin = \"make\", args = [\"b\"] }\ndeps = [\"ui#build\"]\nparallel = true\n";
    let doc = src.parse::<DocumentMut>().unwrap();
    let form = FormState::from_doc(&entries(&doc), "web#build");
    assert_eq!(form.text(Field::Name), "web#build");
    assert_eq!(form.choice(Field::Kind), 2);
    assert_eq!(form.text(Field::Bin), "make");
    assert_eq!(form.text(Field::BinArgs), "b");
    assert_eq!(form.text(Field::Deps), "ui#build");
    assert!(form.toggle(Field::Parallel));
}

#[test]
fn a_renamed_task_leaves_nothing_behind() {
    let src = "# kept\n[tasks.old]\nrun = \"x\"\n[tasks.other]\nrun = \"y\"\n";
    let mut doc = src.parse::<DocumentMut>().unwrap();
    let mut form = FormState::from_doc(&entries(&doc), "old");
    form.set_text(Field::Name, "new");
    apply_form(&mut doc, &form).unwrap();
    assert_eq!(task_keys(&entries(&doc)), vec!["new", "other"]);
    assert!(doc.to_string().contains("[tasks.other]"));
}

#[test]
fn a_saved_task_reads_back() {
    let mut form = form_with(
        &[
            (Field::Name, "t"),
            (Field::Run, "vitest"),
            (Field::Packages, "apps/*, ui"),
            (Field::Deps, "a, ^b"),
            (Field::Args, "--x --y"),
            (Field::Env, "A=1, B=two"),
            (Field::EnvFile, ".e, .f"),
        ],
        &[(Field::Location, 2)],
    );
    form.set_toggle(Field::Parallel, true);
    let mut doc = DocumentMut::new();
    apply_form(&mut doc, &form).unwrap();
    let back = FormState::from_doc(&entries(&doc), "t");
    for i in 0..FIELDS {
        let f = Field::at(i);
        if f.holds_text() {
            assert_eq!(back.text(f), form.text(f), "{f:?}");
        } else if f == Field::Parallel {
            assert!(back.toggle(f));
        } else {
            assert_eq!(back.choice(f), form.choice(f), "{f:?}");
        }
    }
}

#[test]
fn focus_skips_fields_that_do_not_apply() {
    let mut form = FormState::new_task();
    for _ in 0..FIELDS {
        assert!(form.is_active(form.focus));
        form.focus_next();
    }
    for _ in 0..FIELDS {
        form.focus_prev();
        assert!(form.is_active(form.focus));
    }
    assert!(!form.is_active(Field::Bin));
    form.set_choice(Field::Kind, 1);
    assert!(form.is_active(Field::Bin));
    assert!(!form.is_active(Field::Run));
}

#[test]
fn lists_are_split_and_environment_pairs_checked() {
    assert_eq!(split_csv(" a, b ,,c "), vec!["a", "b", "c"]);
    assert_eq!(split_ws("  a  b\tc "), vec!["a", "b", "c"]);
    assert_eq!(
        parse_env("A=1, B = x=y").unwrap(),
        vec![("A".into(), "1".into()), ("B".into(), "x=y".into())]
    );
    assert!(parse_env("novalue").is_err());
    let doc = read("env = { A = \"1\", B = \"2\" }\n").unwrap();
    assert_eq!(join_env(Some(&doc[0].1)), "A=1, B=2");
}

#[test]
fn tasks_are_described_in_one_line() {
    let doc = read("[tasks.dev]\nrun = \"vite\"\n[tasks.build]\ndelegate = \"turbo\"\n").unwrap();
    assert!(describe(&doc, "dev").contains("vite"));
    assert!(describe(&doc, "build").contains("turbo"));
}

#[test]
fn a_text_that_does_not_validate_is_judged() {
    assert_eq!(judge("[tasks.a]\nrun = \"x\"\n"), None);
    assert!(judge("[tasks.\"a b\"]\nrun = \"x\"\n").is_some());
    assert!(App::open("/ws/tasks.toml", "/ws", Some("[tasks\n")).is_err());
    assert_eq!(
        App::open("/ws/tasks.toml", "/ws", None).unwrap().tasks,
        Vec::<String>::new()
    );
}

#[test]
fn the_list_leads_to_the_form_and_back() {
    let mut app = app_at("[tasks.a]\nrun = \"x\"\n[tasks.b]\nrun = \"y\"\n");
    app.mode = Mode::List(ListPurpose::Edit);
    app.on_key(Key::Down, false);
    app.on_key(Key::Enter, false);
    match &app.mode {
        Mode::Form(f) => {
            assert_eq!(f.original.as_deref(), Some("b"));
            assert_eq!(f.text(Field::Run), "y");
        }
        other => panic!("unexpected {other:?}"),
    }
    app.on_key(Key::Esc, false);
    assert!(!matches!(app.mode, Mode::Form(_)));
}

#[test]
fn the_screen_shows_what_the_mode_needs() {
    let mut app = app_at("[tasks.a]\nrun = \"x\"\n");
    let menu = app.render(&Preview::Nothing);
    assert_eq!(menu.body.len(), MENU_ITEMS);
    assert_eq!(menu.selected, Some(0));
    app.mode = Mode::Graph {
        focus: None,
        scroll: 0,
    };
    let cfg = app.preview_config().unwrap();
    let drawn = app.render(&Preview::Ready {
        marks: vec![NONE],
        cfg,
    });
    assert!(all_text(&drawn.body).contains("● a"));
}

/// The text after the form for a task was opened, changed and saved.
fn edited(src: &str, task: &str, changes: &[(Field, &str)]) -> String {
    let mut doc = src.parse::<DocumentMut>().unwrap();
    let mut form = FormState::from_doc(&entries(&doc), task);
    for (field, value) in changes {
        form.set_text(*field, value);
    }
    apply_form(&mut doc, &form).unwrap();
    doc.to_string()
}

/// The text after a task was added.
fn with_new(src: &str, name: &str, run: &str) -> String {
    let mut doc = src.parse::<DocumentMut>().unwrap();
    apply_form(
        &mut doc,
        &form_with(&[(Field::Name, name), (Field::Run, run)], &[]),
    )
    .unwrap();
    doc.to_string()
}

/// The text after a task was deleted.
fn without(src: &str, name: &str) -> String {
    let mut app = app_at(src);
    app.mode = Mode::ConfirmDelete(name.into());
    app.on_key(Key::Char('y'), false).unwrap()
}

#[test]
fn a_new_task_goes_below_a_scaffold_of_comments() {
    let scaffold = "# My tasks\n\n# [tasks.dev]\n# run = \"vite\"\n";
    let s = with_new(scaffold, "dev", "vite");
    assert_eq!(s, format!("{scaffold}\n[tasks.dev]\nrun = \"vite\"\n"));
}

#[test]
fn a_new_task_goes_below_what_ends_the_file() {
    let src = "[tasks.a]\nrun = \"x\"\n\n[env]\nA = \"1\"\n\n# the end";
    let one = with_new(src, "b", "y");
    assert_eq!(one, format!("{src}\n\n[tasks.b]\nrun = \"y\"\n"));
    let two = with_new(&one, "c", "z");
    assert_eq!(two, format!("{one}\n[tasks.c]\nrun = \"z\"\n"));
}

#[test]
fn editing_a_task_keeps_what_is_written_around_it() {
    let src = "# The file\n\n\
               # about dev\n[tasks.dev] # head\n\
               # above run\nrun = \"vite\" # why\n\
               custom = 1 # not ours\ndeps = [\"ci\"] # waits\n\
               env = { A = \"1\" } # vars\n\n\
               # about ci\n[tasks.ci]\nrun = \"x\"\n\
               # the end\n";
    assert_eq!(edited(src, "dev", &[]), src);
    assert_eq!(
        edited(src, "dev", &[(Field::Run, "vite --host")]),
        src.replace("\"vite\"", "\"vite --host\"")
    );
    assert_eq!(
        edited(src, "dev", &[(Field::Deps, "")]),
        src.replace("deps = [\"ci\"] # waits\n", "")
    );
    assert_eq!(
        edited(src, "ci", &[(Field::Run, "y")]),
        src.replace("\"x\"", "\"y\"")
    );
    let more = edited(src, "ci", &[(Field::Args, "--all")]);
    assert_eq!(
        more,
        src.replace("run = \"x\"\n", "run = \"x\"\nargs = [\"--all\"]\n")
    );
}

#[test]
fn editing_a_task_keeps_the_way_its_values_are_written() {
    let src = "[tasks.dev]\nrun = 'vite'\n\n[tasks.dev.env]\n# first\nA = \"1\" # one\n";
    assert_eq!(edited(src, "dev", &[]), src);
    let s = edited(src, "dev", &[(Field::Run, "vite -p")]);
    assert_eq!(s, src.replace("'vite'", "\"vite -p\""));
    let inline = "tasks = { dev = { run = \"vite\", x = 2 } }\n";
    let s = edited(inline, "dev", &[(Field::Run, "y")]);
    assert_eq!(task_keys(&entries(&s.parse().unwrap())), vec!["dev"]);
    assert!(s.contains("\"y\"") && s.contains("x = 2"), "{s}");
}

#[test]
fn renaming_a_task_keeps_its_comment_and_its_place() {
    let src = "# The file\n\n# about a\n[tasks.a]\nrun = \"x\" # why\n\n\
               # about b\n[tasks.b]\nrun = \"y\"\n";
    assert_eq!(
        edited(src, "a", &[(Field::Name, "c")]),
        src.replace("[tasks.a]", "[tasks.c]")
    );
}

#[test]
fn a_renamed_task_takes_the_place_of_another_one() {
    let src = "# The file\n\n# about a\n[tasks.a]\nrun = \"x\"\n\n\
               # about b\n[tasks.b]\nrun = \"y\"\n";
    let s = edited(src, "b", &[(Field::Name, "a")]);
    assert_eq!(
        s,
        "# The file\n\n\n# about b\n[tasks.a]\nrun = \"y\"\n"
    );
}

#[test]
fn a_deleted_task_hands_the_head_of_the_file_on() {
    let src = "# The file\n\n# about a\n[tasks.a]\nrun = \"x\"\n\n\
               # about b\n[tasks.b]\nrun = \"y\" # why\n";
    let s = without(src, "a");
    assert_eq!(
        s,
        "# The file\n\n\n# about b\n[tasks.b]\nrun = \"y\" # why\n"
    );
    assert_eq!(without(&s, "b"), "# The file\n\n\n");
    let tail = without(&format!("{s}# the end\n"), "b");
    assert_eq!(tail, "# The file\n\n\n# the end\n");
}

#[test]
fn a_deleted_task_takes_its_own_comment_along() {
    let src = "# about a\n[tasks.a]\nrun = \"x\"\n\n# about b\n[tasks.b]\nrun = \"y\"\n";
    assert_eq!(without(src, "a"), "\n# about b\n[tasks.b]\nrun = \"y\"\n");
    assert_eq!(
        without(src, "b"),
        "# about a\n[tasks.a]\nrun = \"x\"\n"
    );
    assert_eq!(without(src, "none"), src);
}

#[test]
fn a_comment_is_split_at_its_last_blank_line() {
    let split = |s: &str| {
        let (upper, own) = split_comment(s);
        assert_eq!(format!("{upper}{own}"), s);
        (upper, own)
    };
    let pair = |a: &str, b: &str| (a.to_string(), b.to_string());
    assert_eq!(split("# a\n\n# b\n"), pair("# a\n\n", "# b\n"));
    assert_eq!(split("# a\n \t\n# b\n\n# c\n"), pair("# a\n \t\n# b\n\n", "# c\n"));
    assert_eq!(split("# a\n# b\n"), pair("", "# a\n# b\n"));
    assert_eq!(split("\n# a\n"), pair("\n", "# a\n"));
    assert_eq!(split(""), pair("", ""));
}
