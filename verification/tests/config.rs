//! The config.

use tsr::config::{
    ancestors, check_permissions, locate, nearest_package_root, upstream_dep, validate_str,
    validate_task_name, Config, Delegate, DirFacts,
};
use tsr::error::{Outcome, TsrError, EXIT_RUNNER_ERROR};
use tsr::graph::{reachable, validate};

fn load(text: &str) -> Result<Config, TsrError> {
    Config::load(text, "/ws")
}

fn cfg(text: &str) -> Config {
    load(text).unwrap()
}

#[test]
fn parses_all_task_forms() {
    let cfg = load(
        r#"
            [workspace]
            members = ["apps/*", "packages/*"]

            [env]
            NODE_ENV = "development"

            [tasks.dev]
            run = "vite"
            dir = "apps/web"
            args = ["--host"]

            [tasks.test]
            packages = ["apps/*"]

            [tasks.build]
            delegate = "turbo"

            [tasks.bundle]
            delegate = { bin = "make", args = ["bundle"] }

            [tasks.ci]
            deps = ["lint", "test"]
            parallel = true
            env = { CI = "true" }
            "#,
    )
    .unwrap();

    assert_eq!(cfg.members, vec!["apps/*", "packages/*"]);
    assert_eq!(cfg.env, vec![("NODE_ENV".into(), "development".into())]);

    let dev = cfg.task("dev").unwrap();
    assert_eq!(dev.run.as_deref(), Some("vite"));
    assert_eq!(dev.dir.as_deref(), Some("apps/web"));
    assert_eq!(dev.args, vec!["--host"]);

    assert_eq!(
        cfg.task("test").unwrap().packages,
        Some(vec!["apps/*".into()])
    );
    assert_eq!(
        cfg.task("build").unwrap().delegate,
        Some(Delegate::Bin("turbo".into()))
    );
    assert_eq!(
        cfg.task("bundle").unwrap().delegate,
        Some(Delegate::Full {
            bin: "make".into(),
            args: vec!["bundle".into()],
        })
    );

    let ci = cfg.task("ci").unwrap();
    assert!(ci.parallel);
    assert_eq!(ci.deps, vec!["lint", "test"]);
    assert_eq!(ci.env, vec![("CI".into(), "true".into())]);
}

#[test]
fn preserves_comments_and_unknown_keys_on_round_trip() {
    let src = "# top comment\n[tasks.dev]\nrun = \"vite\" # trailing\nfuture_key = \"keep me\"\n";
    let cfg = load(src).unwrap();
    assert_eq!(cfg.doc.to_string(), src);
}

#[test]
fn rejects_dir_and_packages_together() {
    let err = load("[tasks.x]\nrun = \"a\"\ndir = \"p\"\npackages = [\"q\"]\n").unwrap_err();
    assert!(matches!(err, TsrError::Config(_)));
    assert!(err.message().contains("mutually exclusive"));
}

#[test]
fn accepts_colon_in_task_names() {
    let cfg = load("[tasks.\"build:prod\"]\nrun = \"vite build\"\n").unwrap();
    assert!(cfg.task("build:prod").is_some());
}

#[test]
fn accepts_hash_package_task_key() {
    let cfg = load("[tasks.\"web#build:prod\"]\nrun = \"vite build\"\n").unwrap();
    assert!(cfg.task("web#build:prod").is_some());
}

#[test]
fn rejects_illegal_task_name_char() {
    let err = load("[tasks.\"bad name\"]\nrun = \"a\"\n").unwrap_err();
    assert!(err.message().contains("illegal character"));
}

#[test]
fn rejects_double_hash_in_key() {
    let err = load("[tasks.\"a#b#c\"]\nrun = \"x\"\n").unwrap_err();
    assert!(err.message().contains("at most one '#'"));
}

#[test]
fn rejects_upstream_dep_as_v1_1() {
    let err = load("[tasks.ci]\ndeps = [\"^build\"]\n").unwrap_err();
    assert!(err.message().contains("v1.1"));
}

#[test]
fn upstream_deps_need_packages() {
    let err = load("[tasks.build]\ndeps = [\"^build\"]\nrun = \"x\"\n").unwrap_err();
    assert!(matches!(err, TsrError::Config(_)));
    assert!(err.message().contains("packages"), "{}", err.message());
    assert!(load("[tasks.build]\npackages = [\"a\"]\ndeps = [\"^build\"]\n").is_ok());
}

#[test]
fn rejects_invalid_toml() {
    let err = load("[tasks.dev\nrun = ").unwrap_err();
    assert_eq!(err.exit_code(), EXIT_RUNNER_ERROR);
}

#[test]
fn rejects_unsupported_run_metachar_at_load() {
    let err = load("[tasks.x]\nrun = \"cat a | grep b\"\n").unwrap_err();
    assert!(matches!(err, TsrError::Config(_)));
    assert!(err.message().contains("task 'x'"));
    assert!(err.message().contains("pipe"));
}

#[test]
fn accepts_supported_run_metachars_at_load() {
    assert!(load("[tasks.x]\nrun = \"lint && test\"\n").is_ok());
    assert!(load("[tasks.x]\nrun = \"deploy $TARGET\"\n").is_ok());
}

fn facts(has_config: bool, is_repository: bool, is_home: bool) -> DirFacts {
    DirFacts {
        has_config,
        is_repository,
        is_home,
        other_filesystem: false,
        has_marker: false,
    }
}

#[test]
fn discovers_root_by_walking_up() {
    let dirs = ancestors("/ws/a/b");
    assert_eq!(dirs, vec!["/ws/a/b", "/ws/a", "/ws", "/"]);
    let found = vec![
        facts(false, false, false),
        facts(false, false, false),
        facts(true, false, false),
        facts(true, false, false),
    ];
    assert_eq!(locate(&found), Some(2));
    let cfg = Config::discover("/ws/a/b", &found, "[tasks.dev]\nrun = \"vite\"\n").unwrap();
    assert_eq!(cfg.root, "/ws");
    assert!(cfg.task("dev").is_some());
    let none = dirs.iter().map(|_| facts(false, false, false)).collect();
    let err = Config::discover("/ws/a/b", &none, "").unwrap_err();
    assert_eq!(
        err.bare_message(),
        "no 'tasks.toml' found in '/ws/a/b' or any parent directory"
    );
}

#[test]
fn the_walk_ends_at_a_boundary() {
    let plain = facts(false, false, false);
    let config = facts(true, false, false);
    assert_eq!(
        locate(&vec![plain, facts(false, true, false), config]),
        None
    );
    // The repository's own root is looked at.
    assert_eq!(locate(&vec![plain, facts(true, true, false)]), Some(1));
    // So is the directory that the walk starts in, whatever it is.
    assert_eq!(locate(&vec![facts(true, false, true)]), Some(0));
    assert_eq!(locate(&vec![plain, facts(true, false, true)]), None);
    let far = DirFacts {
        other_filesystem: true,
        ..config
    };
    assert_eq!(locate(&vec![plain, far]), None);
}

#[test]
fn the_nearest_marker_is_the_package_root() {
    let none = facts(false, false, false);
    let marked = DirFacts {
        has_marker: true,
        ..none
    };
    assert_eq!(nearest_package_root(&vec![none, marked, marked]), Some(1));
    assert_eq!(nearest_package_root(&vec![none, none]), None);
}

#[test]
fn permissions_are_judged_by_file_and_directory() {
    assert!(check_permissions("/ws/tasks.toml", 0o100644, 0o40755).is_ok());
    assert!(check_permissions("/ws/tasks.toml", 0o100664, 0o40775).is_ok());
    let err = check_permissions("/ws/tasks.toml", 0o100666, 0o40755).unwrap_err();
    assert_eq!(err.exit_code(), 64);
    assert!(check_permissions("/ws/tasks.toml", 0o100644, 0o40777).is_err());
    // A sticky directory keeps users from replacing each other's files.
    assert!(check_permissions("/tmp/tasks.toml", 0o100644, 0o41777).is_ok());
}

#[test]
fn tasks_are_kept_in_key_order() {
    let c = cfg("[tasks.b]\nrun=\"x\"\n[tasks.a]\nrun=\"x\"\n[tasks.\"a#c\"]\nrun=\"x\"\n");
    let keys: Vec<&str> = c.tasks.iter().map(|t| t.key.as_str()).collect();
    assert_eq!(keys, vec!["a", "a#c", "b"]);
    assert_eq!(c.tasks[1].task_name(), "c");
    assert_eq!(c.task_index("b"), Some(2));
    assert_eq!(c.task_index("z"), None);
}

#[test]
fn wrong_types_are_config_errors() {
    for text in [
        "[tasks.x]\nrun = 1\n",
        "[tasks.x]\nargs = \"a\"\n",
        "[tasks.x]\nargs = [1]\n",
        "[tasks.x]\nparallel = \"yes\"\n",
        "[tasks.x]\ndelegate = 1\n",
        "[tasks.x]\ndelegate = { args = [] }\n",
        "[tasks.x]\nenv = { A = 1 }\n",
        "[tasks.x]\nenv_file = 1\n",
        "[workspace]\nmembers = \"a\"\n",
        "[env]\nA = 1\n",
    ] {
        let err = validate_str(text).unwrap_err();
        assert!(matches!(err, TsrError::Config(_)), "{text}");
    }
}

#[test]
fn task_names_are_checked() {
    assert!(validate_task_name("web#build:prod_1-x").is_ok());
    for bad in ["", "a b", "a#", "#b", "a#b#c", "^a", "a."] {
        assert!(validate_task_name(bad).is_err(), "{bad:?}");
    }
    assert_eq!(upstream_dep("^build"), Some("build".to_string()));
    assert_eq!(upstream_dep("build"), None);
}

#[test]
fn outcomes_have_exit_codes() {
    assert_eq!(Outcome::Success.exit_code(), 0);
    assert_eq!(Outcome::TaskFailed(7).exit_code(), 7);
    assert_eq!(TsrError::config("x").message(), "✗ config error: x");
    assert_eq!(TsrError::runtime("x").message(), "✗ error: x");
    assert_eq!(TsrError::runtime("x").bare_message(), "x");
}

#[test]
fn accepts_acyclic_graph() {
    let c = cfg(
        "[tasks.ci]\ndeps=[\"lint\",\"test\"]\n[tasks.lint]\nrun=\"l\"\n[tasks.test]\nrun=\"t\"\n",
    );
    assert!(validate(&c, "ci").is_ok());
}

#[test]
fn accepts_diamond() {
    let c = cfg(
        "[tasks.top]\ndeps=[\"a\",\"b\"]\n[tasks.a]\ndeps=[\"base\"]\n[tasks.b]\ndeps=[\"base\"]\n[tasks.base]\nrun=\"x\"\n",
    );
    assert!(validate(&c, "top").is_ok());
}

#[test]
fn detects_cycle() {
    let c = cfg("[tasks.a]\ndeps=[\"b\"]\n[tasks.b]\ndeps=[\"a\"]\n");
    let err = validate(&c, "a").unwrap_err();
    assert!(err.message().contains("cycle"));
    assert_eq!(err.exit_code(), 64);
}

#[test]
fn detects_self_cycle() {
    let c = cfg("[tasks.a]\ndeps=[\"a\"]\n");
    assert!(validate(&c, "a").unwrap_err().message().contains("cycle"));
}

#[test]
fn unknown_root_task_is_error() {
    let c = cfg("[tasks.a]\nrun=\"x\"\n");
    let err = validate(&c, "nope").unwrap_err();
    assert!(err.message().contains("unknown task"));
}

#[test]
fn unknown_dep_is_error() {
    let c = cfg("[tasks.a]\ndeps=[\"ghost\"]\n");
    assert!(validate(&c, "a").unwrap_err().message().contains("ghost"));
}

#[test]
fn a_task_may_name_itself_upstream() {
    let c = cfg(
        "[tasks.build]\npackages=[\"p\"]\ndeps=[\"^build\",\"gen\"]\n[tasks.gen]\nrun=\"g\"\n\
         [tasks.test]\npackages=[\"p\"]\ndeps=[\"build\",\"^test\",\"^build\"]\n",
    );
    assert!(validate(&c, "build").is_ok());
    assert!(validate(&c, "test").is_ok());
}

#[test]
fn an_unknown_upstream_task_is_error() {
    let c = cfg(
        "[tasks.top]\ndeps=[\"a\"]\n[tasks.a]\npackages=[\"p\"]\ndeps=[\"^m\"]\n\
         [tasks.b]\npackages=[\"p\"]\ndeps=[\"^c\"]\n\
         [tasks.c]\npackages=[\"p\"]\ndeps=[\"^d\"]\n",
    );
    for root in ["top", "a"] {
        let err = validate(&c, root).unwrap_err();
        assert_eq!(
            err.message(),
            "✗ config error: task depends on unknown task 'm'",
            "{root}"
        );
        assert_eq!(err.exit_code(), 64);
    }
    assert!(validate(&c, "b").unwrap_err().message().contains("'d'"));
}

#[test]
fn what_an_upstream_task_waits_for_is_checked() {
    // A cycle among the ordinary dependencies of a task that is named with `^`.
    let c = cfg(
        "[tasks.b]\npackages=[\"p\"]\ndeps=[\"^g\"]\n[tasks.g]\ndeps=[\"g\"]\n\
         [tasks.u]\npackages=[\"p\"]\ndeps=[\"^v\"]\n[tasks.v]\ndeps=[\"ghost\"]\n",
    );
    assert!(validate(&c, "b").unwrap_err().message().contains("cycle"));
    assert!(validate(&c, "u").unwrap_err().message().contains("'ghost'"));

    // `a` runs `b` in other packages first, and `b` waits for all of `a`.
    let c = cfg("[tasks.b]\ndeps=[\"a\"]\n[tasks.a]\npackages=[\"p\"]\ndeps=[\"^b\"]\n");
    for root in ["a", "b"] {
        assert!(validate(&c, root).unwrap_err().message().contains("cycle"), "{root}");
    }
}

#[test]
fn the_tasks_that_will_run_are_the_reachable_ones() {
    let c = cfg(
        "[tasks.top]\ndeps=[\"a\"]\n[tasks.a]\npackages=[\"p\"]\ndeps=[\"^b\"]\n\
         [tasks.b]\nrun=\"x\"\n[tasks.other]\nrun=\"x\"\n",
    );
    let mut keys = reachable(&c, "top");
    keys.sort();
    assert_eq!(keys, vec!["a", "b", "top"]);
}

#[test]
fn reachable_tasks_come_depth_first_and_the_last_dependency_first() {
    let c = cfg(
        "[tasks.top]\ndeps=[\"a\",\"b\"]\n[tasks.a]\ndeps=[\"d\"]\n\
         [tasks.b]\ndeps=[\"c\",\"d\"]\n[tasks.c]\nrun=\"x\"\n[tasks.d]\nrun=\"x\"\n",
    );
    assert_eq!(reachable(&c, "top"), vec!["top", "b", "d", "c", "a"]);
    assert_eq!(reachable(&c, "nothing"), vec!["nothing"]);
}
