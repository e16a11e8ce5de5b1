//! The command line, and what `--list` and `--init` say.

use tsr::cli::{
    implicit_config, init, list, list_configless, parse, Cli, Reporter, RunOptions, INIT_TEMPLATE,
    USAGE,
};
use tsr::config::{implicit, validate_str, Config};
use tsr::detect::Markers;
use tsr::error::TsrError;

fn strings(args: &[&str]) -> Vec<String> {
    args.iter().map(|s| s.to_string()).collect()
}

fn parse_ok(args: &[&str]) -> Cli {
    parse(&strings(args)).unwrap()
}

fn parse_err(args: &[&str]) -> TsrError {
    parse(&strings(args)).unwrap_err()
}

fn run(task: &str, passthrough: &[&str], since: Option<&str>) -> Cli {
    Cli::Run {
        task: task.into(),
        passthrough: strings(passthrough),
        opts: RunOptions {
            since: since.map(String::from),
            ..RunOptions::default()
        },
    }
}

#[test]
fn parses_bare_task() {
    assert_eq!(parse_ok(&["dev"]), run("dev", &[], None));
}

#[test]
fn parses_passthrough_after_double_dash() {
    assert_eq!(
        parse_ok(&["test", "--", "--watch", "-x"]),
        run("test", &["--watch", "-x"], None)
    );
}

#[test]
fn empty_passthrough_is_allowed() {
    assert_eq!(parse_ok(&["test", "--"]), run("test", &[], None));
}

#[test]
fn passthrough_keeps_list_and_flags_literal() {
    assert_eq!(
        parse_ok(&["run", "--", "list", "--help"]),
        run("run", &["list", "--help"], None)
    );
}

#[test]
fn parses_list_help_version() {
    assert_eq!(parse_ok(&["--list"]), Cli::List);
    assert_eq!(parse_ok(&["--help"]), Cli::Help);
    assert_eq!(parse_ok(&["-V"]), Cli::Version);
}

#[test]
fn parses_init() {
    assert_eq!(parse_ok(&["--init"]), Cli::Init);
    assert!(parse_err(&["--init", "x"]).message().contains("no arguments"));
}

#[test]
fn parses_config() {
    assert_eq!(parse_ok(&["--config"]), Cli::Config);
    assert!(parse_err(&["--config", "x"]).message().contains("no arguments"));
}

#[test]
fn builtin_names_are_not_reserved_as_tasks() {
    assert_eq!(parse_ok(&["list"]), run("list", &[], None));
    assert_eq!(
        parse_ok(&["init", "--", "--flag"]),
        run("init", &["--flag"], None)
    );
}

#[test]
fn init_writes_template_and_refuses_overwrite() {
    let scaffold = init("/repo", false).ok().unwrap();
    assert_eq!(scaffold.path, "/repo/tasks.toml");
    assert_eq!(scaffold.contents, INIT_TEMPLATE);
    assert_eq!(scaffold.notes[0], "Created /repo/tasks.toml");
    let err = init("/repo", true).err().unwrap();
    assert_eq!(err.exit_code(), 64);
    assert!(err.message().contains("already exists"));
}

#[test]
fn init_template_is_valid_and_defines_no_tasks() {
    let cfg = Config::load(INIT_TEMPLATE, "/repo").unwrap();
    assert!(cfg.tasks.is_empty(), "scaffold must not define tasks");
}

#[test]
fn init_template_points_at_the_docs() {
    assert!(INIT_TEMPLATE.contains("https://tsr.opentechf.org/docs"));
}

/// `key ` before an `=`: this line is a TOML assignment, not prose.
fn is_bare_key(s: &str) -> bool {
    let k = s.trim();
    !k.is_empty()
        && k.len() < s.len()
        && k.chars()
            .all(|c| c.is_ascii_alphanumeric() || c == '_' || c == '-')
}

#[test]
fn init_template_examples_uncomment_into_a_valid_config() {
    let body = INIT_TEMPLATE
        .lines()
        .filter_map(|l| l.strip_prefix("# "))
        .filter(|l| l.starts_with('[') || l.split('=').next().is_some_and(is_bare_key))
        .collect::<Vec<_>>()
        .join("\n");
    validate_str(&body)
        .unwrap_or_else(|e| panic!("uncommented scaffold is invalid: {}\n---\n{body}", e.message()));
}

#[test]
fn no_task_is_error() {
    assert_eq!(parse_err(&[]).exit_code(), 64);
    assert_eq!(parse_err(&["--"]).exit_code(), 64);
}

#[test]
fn extra_token_before_dashes_is_error() {
    let err = parse_err(&["test", "extra"]);
    assert!(err.message().contains("unexpected argument"));
}

#[test]
fn unknown_flag_is_error() {
    assert!(parse_err(&["--nope"]).message().contains("unknown flag"));
}

#[test]
fn list_rejects_arguments() {
    assert!(parse_err(&["--list", "x"]).message().contains("no arguments"));
}

#[test]
fn parses_since_in_both_spellings() {
    for args in [
        ["build", "--since", "main"].as_slice(),
        ["build", "--since=main"].as_slice(),
    ] {
        assert_eq!(parse_ok(args), run("build", &[], Some("main")));
    }
}

#[test]
fn since_combines_with_passthrough() {
    assert_eq!(
        parse_ok(&["test", "--since", "HEAD~1", "--", "--watch"]),
        run("test", &["--watch"], Some("HEAD~1"))
    );
}

#[test]
fn since_without_a_ref_is_an_error() {
    assert!(parse_err(&["build", "--since"]).message().contains("git ref"));
    assert!(parse_err(&["build", "--since="]).message().contains("git ref"));
}

#[test]
fn a_ref_that_looks_like_a_flag_is_still_taken_as_the_value() {
    assert_eq!(
        parse_ok(&["build", "--since", "--weird"]),
        run("build", &[], Some("--weird"))
    );
}

#[test]
fn other_arguments_after_a_task_still_error() {
    let err = parse_err(&["build", "extra"]).message();
    assert!(err.contains("unexpected argument"), "{err}");
    assert!(err.contains("--"), "{err}");
}

#[test]
fn every_option_can_follow_a_task() {
    let cli = parse_ok(&[
        "ci",
        "--no-bail",
        "--dry-run",
        "--allow-unsafe-env",
        "--resume-from=packages/ui",
        "--reporter",
        "ndjson",
        "--reporter-file",
        "out.ndjson",
        "--since",
        "main",
        "--",
        "-x",
    ]);
    assert_eq!(
        cli,
        Cli::Run {
            task: "ci".into(),
            passthrough: vec!["-x".into()],
            opts: RunOptions {
                since: Some("main".into()),
                resume_from: Some("packages/ui".into()),
                no_bail: true,
                dry_run: true,
                allow_unsafe_env: true,
                reporter: Reporter::Ndjson,
                reporter_file: Some("out.ndjson".into()),
            },
        }
    );
}

#[test]
fn the_last_of_two_options_counts() {
    assert_eq!(
        parse_ok(&["b", "--since=a", "--since", "c"]),
        run("b", &[], Some("c"))
    );
}

#[test]
fn options_without_a_value_are_errors() {
    for (flag, word) in [
        ("--since", "git ref"),
        ("--resume-from", "package"),
        ("--reporter", "format"),
        ("--reporter-file", "path"),
    ] {
        let bare = parse_err(&["b", flag]);
        assert_eq!(bare.exit_code(), 64);
        assert!(bare.message().contains(word), "{}", bare.message());
        let empty = parse_err(&["b", &format!("{flag}=")]).message();
        assert!(empty.contains(word), "{empty}");
        let blank = parse_err(&["b", flag, ""]).message();
        assert!(blank.contains(word), "{blank}");
    }
    let odd = parse_err(&["b", "--reporter", "xml"]).message();
    assert!(odd.contains("unknown reporter 'xml'"), "{odd}");
}

#[test]
fn errors_read_as_they_are_meant() {
    assert_eq!(
        parse_err(&["b", "x"]).message(),
        "✗ error: unexpected argument 'x' — forward args after '--' (e.g. `tsr b -- x`)"
    );
    assert_eq!(
        parse_err(&[]).message(),
        format!("✗ error: no task specified\n\n{USAGE}")
    );
    assert_eq!(
        parse_err(&["-q"]).message(),
        format!("✗ error: unknown flag '-q'\n\n{USAGE}")
    );
}

#[test]
fn list_shows_each_task_with_its_form() {
    let cfg = Config::load(
        "[tasks.dev]\nrun = \"vite\"\ndir = \"apps/web\"\n\
         [tasks.build]\ndelegate = \"turbo\"\n\
         [tasks.bundle]\ndelegate = { bin = \"make\", args = [\"b\"] }\n\
         [tasks.test]\npackages = [\"apps/*\", \"libs/*\"]\n\
         [tasks.ci]\ndeps = [\"test\", \"build\"]\nparallel = true\n\
         [tasks.x]\n",
        "/repo",
    )
    .unwrap();
    assert_eq!(
        list(&cfg),
        vec![
            "Available tasks:",
            "  build   delegate: turbo",
            "  bundle  delegate: make (custom)",
            "  ci      deps: test, build  ·  parallel",
            "  dev     run: vite  ·  dir: apps/web",
            "  test    packages: apps/*, libs/*",
            "  x       auto",
        ]
    );
    let empty = Config::load("", "/repo").unwrap();
    assert_eq!(list(&empty), vec!["No tasks defined in tasks.toml."]);
}

fn markers(name: &str) -> Markers {
    Markers {
        package_json: name == "npm" || name == "bun",
        bun_lock: name == "bun",
        cargo_toml: name == "cargo",
        go_mod: name == "go",
        pyproject_toml: name == "python",
    }
}

#[test]
fn list_without_a_config_names_the_runner() {
    for (eco, label) in [
        ("npm", "an npm package (package.json)"),
        ("bun", "a bun package (package.json + bun lockfile)"),
        ("cargo", "a Cargo crate (Cargo.toml)"),
        ("go", "a Go module (go.mod)"),
        ("python", "a Python project (pyproject.toml)"),
        ("none", "a native runner"),
    ] {
        let lines = list_configless(&Some(("/repo/pkg".to_string(), markers(eco))));
        assert_eq!(lines.len(), 3);
        assert_eq!(lines[1], format!("Detected {label} at /repo/pkg."));
    }
    let none = list_configless(&None);
    assert_eq!(none.len(), 2);
    assert!(none[1].contains("tsr --init"));
}

#[test]
fn without_a_config_a_task_is_run_natively() {
    let cfg = implicit_config("/repo/pkg", "dev", Some("/repo/pkg")).unwrap();
    assert!(cfg.implicit);
    assert_eq!(cfg.root, "/repo/pkg");
    assert_eq!(cfg.tasks.len(), 1);
    assert_eq!(cfg.tasks[0].key, "dev");
    assert!(cfg.tasks[0].run.is_none());
    assert_eq!(implicit("/r", "x").tasks[0].key, "x");

    let qualified = implicit_config("/repo", "web#dev", Some("/repo")).unwrap_err();
    assert!(qualified.message().contains("package-qualified task 'web#dev'"));
    let nothing = implicit_config("/repo", "dev", None).unwrap_err();
    assert_eq!(nothing.exit_code(), 64);
    assert!(nothing.message().contains("no 'tasks.toml' found in '/repo'"));
    assert!(nothing.message().contains("tsr --init"));
}
