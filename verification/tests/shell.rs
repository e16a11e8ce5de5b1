//! The mini-shell.

use tsr::env::EnvMap;
use tsr::error::TsrError;
use tsr::exec::{command_at, shell_next, LeafWait, ShellNext};
use tsr::shell::{caret, parse, Arg, ExecPlan, ExpandedCommand, Program, RunPlan, Sep};

fn direct(input: &str) -> Vec<String> {
    match parse(input).unwrap() {
        RunPlan::Direct(argv) => argv,
        other => panic!("expected Direct, got {other:?}"),
    }
}

fn shell(input: &str) -> Program {
    match parse(input).unwrap() {
        RunPlan::Shell(p) => p,
        other => panic!("expected Shell, got {other:?}"),
    }
}

fn env(pairs: &[(&str, &str)]) -> EnvMap {
    let mut m = EnvMap::new();
    for (k, v) in pairs {
        m.insert(k, v);
    }
    m
}

/// What `glob` makes of a query over these files, all below `/t`.
fn matches(query: &str, files: &[&str]) -> Option<Vec<String>> {
    let pattern = glob::Pattern::new(query).ok()?;
    let options = glob::MatchOptions {
        case_sensitive: true,
        require_literal_separator: true,
        require_literal_leading_dot: true,
    };
    let found: Vec<String> = files
        .iter()
        .map(|f| format!("/t/{f}"))
        .filter(|f| pattern.matches_with(f, options))
        .collect();
    Some(found)
}

fn argv_in(cmd: &ExpandedCommand, files: &[&str]) -> Vec<String> {
    let found: Vec<Option<Vec<String>>> = cmd
        .glob_queries("/t")
        .into_iter()
        .map(|q| q.and_then(|q| matches(&q, files)))
        .collect();
    cmd.argv("/t", &found)
}

fn expand_in(input: &str, vars: &[(&str, &str)], files: &[&str]) -> Vec<Vec<String>> {
    match parse(input).unwrap() {
        RunPlan::Direct(argv) => vec![argv],
        RunPlan::Shell(p) => {
            let plan = p.expand(&env(vars)).unwrap();
            std::iter::once(&plan.first)
                .chain(plan.rest.iter().map(|(_, c)| c))
                .map(|c| argv_in(c, files))
                .collect()
        }
    }
}

fn expand_argv(input: &str, vars: &[(&str, &str)]) -> Vec<Vec<String>> {
    expand_in(input, vars, &[])
}

/// Drive a sequence to its end: which programs ran, and the exit code.
fn drive(plan: &ExecPlan, run: impl Fn(&str) -> i32) -> (Vec<String>, i32) {
    let mut ran = Vec::new();
    let mut at = 0;
    let mut last = 0;
    loop {
        match shell_next(plan, at, last, false) {
            ShellNext::Run(i) => {
                let argv = argv_in(command_at(plan, i), &[]);
                last = run(&argv[0]);
                ran.push(argv[0].clone());
                at = i + 1;
            }
            ShellNext::Finish(LeafWait::Exited(code)) => return (ran, code),
            other => panic!("unexpected {other:?}"),
        }
    }
}

#[test]
fn plain_string_is_direct_spawn() {
    assert_eq!(direct("vite --host"), vec!["vite", "--host"]);
    assert_eq!(direct("  cargo   build "), vec!["cargo", "build"]);
}

#[test]
fn quoting_alone_stays_direct() {
    assert_eq!(direct("echo 'hello world'"), vec!["echo", "hello world"]);
    assert_eq!(direct("echo \"a b\""), vec!["echo", "a b"]);
    assert_eq!(direct("echo ''"), vec!["echo", ""]);
}

#[test]
fn vars_globs_and_operators_need_the_shell() {
    assert!(matches!(parse("a $B").unwrap(), RunPlan::Shell(_)));
    assert!(matches!(parse("rm dist/*").unwrap(), RunPlan::Shell(_)));
    assert!(matches!(parse("a && b").unwrap(), RunPlan::Shell(_)));
}

#[test]
fn single_quotes_are_literal() {
    assert_eq!(
        expand_argv("echo '$VAR'", &[("VAR", "x")]),
        vec![vec!["echo", "$VAR"]]
    );
}

#[test]
fn double_quotes_expand() {
    assert_eq!(
        expand_argv("echo \"hi $NAME\"", &[("NAME", "sam")]),
        vec![vec!["echo", "hi sam"]]
    );
}

#[test]
fn expands_bare_and_braced_vars() {
    assert_eq!(
        expand_argv("deploy --target $TARGET", &[("TARGET", "prod")]),
        vec![vec!["deploy", "--target", "prod"]]
    );
    assert_eq!(
        expand_argv("deploy ${TARGET}x", &[("TARGET", "prod")]),
        vec![vec!["deploy", "prodx"]]
    );
}

#[test]
fn undefined_var_is_hard_error() {
    let err = shell("deploy $MISSING").expand(&env(&[])).unwrap_err();
    assert!(matches!(err, TsrError::Config(_)));
    assert!(err.message().contains("$MISSING"));
    assert_eq!(err.exit_code(), 64);
}

#[test]
fn parameter_expansion_is_a_targeted_error() {
    let err = parse("deploy ${TARGET:-prod}").unwrap_err();
    assert!(err.message().contains("parameter expansion"));
    assert_eq!(err.exit_code(), 64);
}

#[test]
fn var_spans_point_at_the_reference() {
    let vars = shell("deploy --target $TARGET").referenced_vars();
    assert_eq!(vars.len(), 1);
    let span = vars[0].span;
    let src = "deploy --target $TARGET";
    let text: String = src
        .chars()
        .skip(span.start)
        .take(span.end - span.start)
        .collect();
    assert_eq!(text, "$TARGET");
}

#[test]
fn referenced_vars_collected() {
    let mut vars: Vec<String> = shell("a $X && b ${Y}")
        .referenced_vars()
        .into_iter()
        .map(|v| v.name)
        .collect();
    vars.sort();
    assert_eq!(vars, vec!["X", "Y"]);
}

#[test]
fn references_are_all_listed_in_source_order() {
    let src = "a $X '$NO \"' \"$Y it's $X\"${Z}$X; b \"'$W'\" $ || c $1 '\"'$V";
    let vars = shell(src).referenced_vars();
    let names: Vec<&str> = vars.iter().map(|v| v.name.as_str()).collect();
    assert_eq!(names, vec!["X", "Y", "X", "Z", "X", "W", "V"]);
    for pair in vars.windows(2) {
        assert!(pair[0].span.end <= pair[1].span.start);
    }
    for v in &vars {
        let text: String = src
            .chars()
            .skip(v.span.start)
            .take(v.span.end - v.span.start)
            .collect();
        assert!(text == format!("${}", v.name) || text == format!("${{{}}}", v.name), "{text}");
    }
}

#[test]
fn glob_expands_relative_to_the_task_dir() {
    assert_eq!(
        expand_in("rm dist/*", &[], &["dist/a.js", "dist/b.js", "src/keep.rs"]),
        vec![vec!["rm", "dist/a.js", "dist/b.js"]]
    );
}

#[test]
fn glob_matches_are_sorted_and_fan_out() {
    assert_eq!(
        expand_in("rm *.txt", &[], &["c.txt", "a.txt", "b.txt"]),
        vec![vec!["rm", "a.txt", "b.txt", "c.txt"]]
    );
}

#[test]
fn unmatched_glob_stays_literal() {
    assert_eq!(
        expand_in("rm dist/*", &[], &[]),
        vec![vec!["rm", "dist/*"]]
    );
}

#[test]
fn glob_does_not_cross_separators_or_match_dotfiles() {
    assert_eq!(
        expand_in("rm *.js", &[], &["a.js", "nested/b.js", ".hidden.js"]),
        vec![vec!["rm", "a.js"]]
    );
}

#[test]
fn quoted_metachars_are_not_globs() {
    assert_eq!(
        expand_in("echo '*.txt'", &[], &["a.txt"]),
        vec![vec!["echo", "*.txt"]]
    );
}

#[test]
fn expanded_variables_are_not_rescanned_for_globs() {
    assert_eq!(
        expand_in("echo $P", &[("P", "*.txt")], &["a.txt"]),
        vec![vec!["echo", "*.txt"]]
    );
}

#[test]
fn var_and_glob_combine_in_one_word() {
    assert_eq!(
        expand_in(
            "rm $OUT/*.js",
            &[("OUT", "build")],
            &["build/one.js", "build/two.js"]
        ),
        vec![vec!["rm", "build/one.js", "build/two.js"]]
    );
}

#[test]
fn question_mark_and_class_patterns_work() {
    let files = ["a1.log", "a2.log", "bb.log"];
    assert_eq!(
        expand_in("rm a?.log", &[], &files),
        vec![vec!["rm", "a1.log", "a2.log"]]
    );
    assert_eq!(
        expand_in("rm [ab]b.log", &[], &files),
        vec![vec!["rm", "bb.log"]]
    );
}

#[test]
fn unparseable_pattern_stays_literal() {
    assert_eq!(expand_in("echo a[b", &[], &[]), vec![vec!["echo", "a[b"]]);
}

#[test]
fn a_value_in_a_pattern_is_escaped() {
    // The value holds a metacharacter; only the written `*` is a pattern.
    assert_eq!(
        expand_in("rm $D/*.js", &[("D", "a*b")], &["a*b/x.js", "aab/y.js"]),
        vec![vec!["rm", "a*b/x.js"]]
    );
}

#[test]
fn braces_are_text_unless_a_comma_stands_in_them() {
    assert_eq!(direct("echo {a}"), vec!["echo", "{a}"]);
    assert!(parse("echo {a,b}").is_err());
}

#[test]
fn sep_proceeds_rule() {
    assert!(Sep::And.proceeds(0) && !Sep::And.proceeds(1));
    assert!(!Sep::Or.proceeds(0) && Sep::Or.proceeds(1));
    assert!(Sep::Semi.proceeds(0) && Sep::Semi.proceeds(7));
}

#[test]
fn sequencing_and_semantics() {
    let plan = shell("a && b").expand(&env(&[])).unwrap();
    let (ran, code) = drive(&plan, |p| if p == "a" { 1 } else { 0 });
    assert_eq!(ran, vec!["a"]);
    assert_eq!(code, 1);
}

#[test]
fn sequencing_or_semantics() {
    let plan = shell("a || b").expand(&env(&[])).unwrap();
    let (ran, code) = drive(&plan, |p| if p == "a" { 1 } else { 0 });
    assert_eq!(ran, vec!["a", "b"]);
    assert_eq!(code, 0);
}

#[test]
fn sequencing_semicolon_always_runs() {
    let plan = shell("a ; b").expand(&env(&[])).unwrap();
    let (ran, code) = drive(&plan, |p| if p == "a" { 3 } else { 0 });
    assert_eq!(ran, vec!["a", "b"]);
    assert_eq!(code, 0);
}

#[test]
fn a_skipped_command_leaves_the_exit_code() {
    let plan = shell("a && b || c ; d").expand(&env(&[])).unwrap();
    let (ran, code) = drive(&plan, |p| match p {
        "a" => 4,
        "c" => 5,
        "d" => 6,
        _ => 0,
    });
    assert_eq!(ran, vec!["a", "c", "d"]);
    assert_eq!(code, 6);
}

#[test]
fn rejects_pipe() {
    assert!(parse("cat x | grep y").unwrap_err().message().contains("pipe"));
}

#[test]
fn rejects_redirection() {
    assert!(parse("echo x > file").unwrap_err().message().contains("redirection"));
    assert!(parse("cmd 2>&1").is_err());
}

#[test]
fn rejects_command_substitution() {
    assert!(parse("echo $(date)").unwrap_err().message().contains("substitution"));
    assert!(parse("echo `date`").is_err());
}

#[test]
fn rejects_single_ampersand_and_pipe() {
    assert!(parse("sleep 1 &").is_err());
    assert!(parse("a | b").is_err());
}

#[test]
fn metachar_inside_quotes_is_not_rejected() {
    assert_eq!(
        expand_argv("echo 'a | b'", &[]),
        vec![vec!["echo", "a | b"]]
    );
    assert_eq!(expand_argv("echo '> x'", &[]), vec![vec!["echo", "> x"]]);
}

#[test]
fn rejects_unterminated_quote() {
    assert!(parse("echo 'oops").is_err());
    assert!(parse("echo \"oops").is_err());
}

#[test]
fn caret_underlines_the_span() {
    let src = "deploy --target $TARGET";
    let span = shell(src).referenced_vars()[0].span;
    let out = caret(src, span);
    let (source_line, caret_line) = out.split_once('\n').unwrap();
    assert_eq!(source_line, "  run = \"deploy --target $TARGET\"");
    assert_eq!(caret_line.len(), source_line.len() - 1);
    assert_eq!(caret_line.trim_start(), "^".repeat("$TARGET".len()));
    assert_eq!(
        source_line.find("$TARGET").unwrap(),
        caret_line.find('^').unwrap()
    );
}

#[test]
fn an_empty_run_string_is_an_error() {
    assert!(parse("").is_err());
    assert!(parse("   ").is_err());
    assert!(parse("a &&").is_err());
}

#[test]
fn a_command_keeps_its_words() {
    let plan = shell("a '' $X").expand(&env(&[("X", "1 2")])).unwrap();
    assert_eq!(
        plan.first.args,
        vec![
            Arg::Literal("a".into()),
            Arg::Literal("".into()),
            Arg::Literal("1 2".into()),
        ]
    );
}
