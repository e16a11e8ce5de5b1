//! The environment of a task.

use tsr::config::Config;
use tsr::env::{
    build_from, env_file_paths, expand_value, load_env_files, node_bin_dirs, parse_dotenv,
    prepend_node_bin, program_candidates, validate_run_vars, EnvMap,
};
use tsr::error::TsrError;

fn process(pairs: &[(&str, &str)]) -> EnvMap {
    let mut m = EnvMap::new();
    for (k, v) in pairs {
        m.insert(k, v);
    }
    m
}

fn owned(pairs: &[(&str, &str)]) -> Vec<(String, String)> {
    pairs
        .iter()
        .map(|(k, v)| (k.to_string(), v.to_string()))
        .collect()
}

fn get<'a>(m: &'a EnvMap, key: &str) -> &'a str {
    m.get(key).unwrap()
}

#[test]
fn prepends_node_bin_dirs_nearest_first() {
    let dirs = node_bin_dirs("/ws/apps/web", "/ws");
    assert_eq!(
        dirs,
        vec![
            "/ws/apps/web/node_modules/.bin",
            "/ws/apps/node_modules/.bin",
            "/ws/node_modules/.bin",
        ]
    );
    let there = vec![dirs[0].clone(), dirs[2].clone()];
    let mut env = process(&[("PATH", "/usr/bin")]);
    prepend_node_bin(&mut env, &there, ':');
    let path: Vec<&str> = get(&env, "PATH").split(':').collect();
    assert_eq!(path[0], "/ws/apps/web/node_modules/.bin");
    assert_eq!(path[1], "/ws/node_modules/.bin");
    assert_eq!(*path.last().unwrap(), "/usr/bin");
}

#[test]
fn node_bin_noop_when_absent() {
    let mut env = process(&[("PATH", "/usr/bin")]);
    prepend_node_bin(&mut env, &vec![], ':');
    assert_eq!(get(&env, "PATH"), "/usr/bin");
}

#[test]
fn a_directory_that_cannot_stand_in_path_is_left_out() {
    let mut env = process(&[("PATH", "/usr/bin")]);
    prepend_node_bin(&mut env, &vec!["/odd:dir/.bin".to_string()], ':');
    assert_eq!(get(&env, "PATH"), "/usr/bin");
}

#[test]
fn precedence_task_beats_file_beats_workspace_beats_dotenv_beats_process() {
    let map = build_from(
        &process(&[("K", "process"), ("P", "keepme")]),
        &owned(&[("K", "dotenv")]),
        &owned(&[("K", "workspace")]),
        &owned(&[("K", "file")]),
        &owned(&[("K", "task")]),
    );
    assert_eq!(get(&map, "K"), "task");
    assert_eq!(get(&map, "P"), "keepme");
}

#[test]
fn env_file_overrides_dotenv_and_workspace_but_not_task_env() {
    let map = build_from(
        &process(&[]),
        &owned(&[("K", "dotenv"), ("A", "base")]),
        &owned(&[("K", "workspace")]),
        &owned(&[("K", "file"), ("A", "fromfile")]),
        &vec![],
    );
    assert_eq!(get(&map, "K"), "file");
    assert_eq!(get(&map, "A"), "fromfile");

    let map2 = build_from(
        &process(&[]),
        &vec![],
        &vec![],
        &owned(&[("K", "file")]),
        &owned(&[("K", "task")]),
    );
    assert_eq!(get(&map2, "K"), "task");
}

#[test]
fn merge_never_wipes_lower_sources() {
    let map = build_from(
        &process(&[("PATH", "/bin")]),
        &vec![],
        &owned(&[("X", "1")]),
        &vec![],
        &vec![],
    );
    assert_eq!(get(&map, "PATH"), "/bin");
    assert_eq!(get(&map, "X"), "1");
}

#[test]
fn value_references_process_and_earlier_keys() {
    let map = build_from(
        &process(&[("HOME", "/h")]),
        &vec![],
        &owned(&[("A", "$HOME/a"), ("B", "${A}/b")]),
        &vec![],
        &vec![],
    );
    assert_eq!(get(&map, "A"), "/h/a");
    assert_eq!(get(&map, "B"), "/h/a/b");
}

#[test]
fn undefined_reference_in_value_is_empty() {
    let map = build_from(
        &process(&[]),
        &vec![],
        &owned(&[("A", "x${MISSING}y")]),
        &vec![],
        &vec![],
    );
    assert_eq!(get(&map, "A"), "xy");
}

#[test]
fn load_env_files_layers_later_over_earlier_and_skips_missing() {
    let files = load_env_files(&vec![
        Some("FOO=local\nONLY_LOCAL=1\n".to_string()),
        Some("FOO=test\n".to_string()),
        None,
    ]);
    let map = build_from(&process(&[]), &vec![], &vec![], &files, &vec![]);
    assert_eq!(get(&map, "FOO"), "test");
    assert_eq!(get(&map, "ONLY_LOCAL"), "1");
}

#[test]
fn parses_dotenv_forms() {
    let env = parse_dotenv(
        "# comment\n\nexport FOO=bar\nQUOTED=\"hello world\"\nSQ='literal'\nEMPTY=\n",
    );
    assert_eq!(
        env,
        vec![
            ("FOO".into(), "bar".into()),
            ("QUOTED".into(), "hello world".into()),
            ("SQ".into(), "literal".into()),
            ("EMPTY".into(), "".into()),
        ]
    );
}

fn load(text: &str) -> Config {
    Config::load(text, "/ws").unwrap()
}

fn check(
    cfg: &Config,
    keys: &[&str],
    env: &EnvMap,
    dotenv: &[(&str, &str)],
) -> Result<(), TsrError> {
    let keys: Vec<String> = keys.iter().map(|k| k.to_string()).collect();
    let files = keys.iter().map(|_| vec![]).collect();
    validate_run_vars(cfg, &keys, env, &owned(dotenv), &files)
}

#[test]
fn undefined_run_var_is_load_error() {
    let cfg = load("[tasks.deploy]\nrun = \"deploy --target $TARGET\"\n");
    let err = check(&cfg, &["deploy"], &process(&[]), &[]).unwrap_err();
    assert!(err.message().contains("$TARGET"));
    assert_eq!(err.exit_code(), 64);
}

#[test]
fn run_var_defined_in_task_env_passes() {
    let cfg = load("[tasks.deploy]\nrun = \"deploy $TARGET\"\nenv = { TARGET = \"prod\" }\n");
    assert!(check(&cfg, &["deploy"], &process(&[]), &[]).is_ok());
}

#[test]
fn run_var_defined_in_process_env_passes() {
    let cfg = load("[tasks.x]\nrun = \"echo $HOME\"\n");
    assert!(check(&cfg, &["x"], &process(&[("HOME", "/h")]), &[]).is_ok());
}

#[test]
fn run_var_defined_in_dotenv_passes() {
    let cfg = load("[tasks.x]\nrun = \"echo $TOKEN\"\n");
    assert!(check(&cfg, &["x"], &process(&[]), &[("TOKEN", "abc")]).is_ok());
}

#[test]
fn unreachable_broken_task_is_not_checked() {
    let cfg =
        load("[tasks.ok]\nrun = \"echo hi\"\n[tasks.broken]\nrun = \"deploy $NOPE\"\n");
    assert!(check(&cfg, &["ok"], &process(&[]), &[]).is_ok());
}

#[test]
fn an_undefined_variable_names_its_task() {
    let cfg = load("[tasks.deploy]\nrun = \"deploy --target $TARGET\"\n");
    let err = check(&cfg, &["deploy"], &process(&[]), &[]).unwrap_err();
    let text = err.message();
    assert!(text.contains("task 'deploy'"), "{text}");
    assert!(text.contains("^^^^^^^"), "{text}");
}

#[test]
fn env_files_define_variables() {
    let cfg = load("[tasks.x]\nrun = \"echo $FROM_FILE\"\nenv_file = \".env.local\"\n");
    let keys = vec!["x".to_string()];
    let files = vec![parse_dotenv("FROM_FILE=1\n")];
    assert!(validate_run_vars(&cfg, &keys, &process(&[]), &vec![], &files).is_ok());
    assert!(validate_run_vars(&cfg, &keys, &process(&[]), &vec![], &vec![vec![]]).is_err());
}

#[test]
fn env_files_are_seen_from_the_task_directory() {
    let cfg = load("[tasks.x]\nrun = \"a\"\ndir = \"apps/web\"\nenv_file = [\".env\", \"/e\"]\n");
    assert_eq!(
        env_file_paths("/ws", cfg.task("x").unwrap()),
        vec!["/ws/apps/web/.env", "/e"]
    );
}

#[test]
fn the_last_pair_for_a_key_wins() {
    let map = build_from(
        &process(&[]),
        &owned(&[("K", "1"), ("K", "2")]),
        &vec![],
        &vec![],
        &vec![],
    );
    assert_eq!(get(&map, "K"), "2");
    assert_eq!(map.entries().len(), 1);
}

#[test]
fn a_dollar_without_a_name_is_text() {
    let env = process(&[("A", "1")]);
    assert_eq!(expand_value("cost: 5$ $A$", &env), "cost: 5$ 1$");
    assert_eq!(expand_value("${A", &env), "${A");
    assert_eq!(expand_value("$A_B", &env), "");
}

#[test]
fn a_bare_program_is_looked_up_with_each_extension() {
    assert_eq!(
        program_candidates("npm", "C:/a;C:/b", ".EXE;.CMD"),
        vec!["C:/a/npm.EXE", "C:/a/npm.CMD", "C:/b/npm.EXE", "C:/b/npm.CMD"]
    );
    for given in ["npm.cmd", "./npm", "tools\\npm"] {
        assert!(program_candidates(given, "C:/a", ".EXE").is_empty(), "{given}");
    }
}

/// An environment of a platform on which the case of a name does not count.
fn caseless(pairs: &[(&str, &str)]) -> EnvMap {
    let mut m = EnvMap::ignoring_case(true);
    for (k, v) in pairs {
        m.insert(k, v);
    }
    m
}

fn names(m: &EnvMap) -> Vec<&str> {
    m.entries().iter().map(|(k, _)| k.as_str()).collect()
}

#[test]
fn names_are_compared_the_way_the_platform_does() {
    let m = caseless(&[("Path", "C:\\bin"), ("home", "h"), ("HOME", "i")]);
    assert_eq!(names(&m), vec!["Path", "home"]);
    assert_eq!(get(&m, "PATH"), "C:\\bin");
    assert_eq!(get(&m, "Home"), "i");
    assert_eq!(expand_value("$PATH;${HOME}", &m), "C:\\bin;i");
    let m = process(&[("Path", "a"), ("PATH", "b")]);
    assert_eq!(names(&m), vec!["Path", "PATH"]);
    assert_eq!(get(&m, "Path"), "a");
    assert!(m.get("path").is_none());
}

#[test]
fn local_binaries_extend_the_path_that_is_there() {
    let mut env = caseless(&[("Path", "C:\\Windows")]);
    prepend_node_bin(&mut env, &vec!["C:/ws/.bin".to_string()], ';');
    assert_eq!(names(&env), vec!["Path"]);
    assert_eq!(get(&env, "PATH"), "C:/ws/.bin;C:\\Windows");
}

#[test]
fn sources_are_merged_under_the_names_already_in_use() {
    let map = build_from(
        &caseless(&[("Path", "sys"), ("User", "me")]),
        &owned(&[("TOKEN", "1")]),
        &owned(&[("PATH", "mine;$path")]),
        &owned(&[("token", "2")]),
        &owned(&[("user", "you")]),
    );
    assert_eq!(names(&map), vec!["Path", "User", "TOKEN"]);
    assert_eq!(get(&map, "path"), "mine;sys");
    assert_eq!(get(&map, "Token"), "2");
    assert_eq!(get(&map, "User"), "you");
    let copy = map.clone();
    assert_eq!(names(&copy), names(&map));
    assert_eq!(get(&copy, "TOKEN"), "2");
}
