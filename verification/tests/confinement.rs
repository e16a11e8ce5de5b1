//! The workspace boundary, over a file system that is a list of real paths.

use tsr::confine::{candidates, candidates_again, config_paths, glob_prefix, resolve, Bounds};
use tsr::config::Config;
use tsr::env::EnvMap;
use tsr::guard::{check, check_pairs};
use tsr::path::{absolute, parts, render};

/// What a path really is: the links are replaced, `.` and `..` are gone.
fn really(p: &str, there: &[&str], links: &[(&str, &str)]) -> Option<String> {
    let known = |here: &str| {
        let prefix = format!("{here}/");
        here == "/" || there.iter().any(|t| *t == here || t.starts_with(&prefix))
    };
    let mut names: Vec<String> = Vec::new();
    for part in parts(p) {
        if part == "." {
            continue;
        }
        if part == ".." {
            names.pop();
            continue;
        }
        names.push(part);
        let here = render(absolute(p), &names);
        for (from, to) in links {
            if here == *from {
                names = parts(to);
            }
        }
        // What is missing has nothing below it and nothing above it.
        if !known(&render(absolute(p), &names)) {
            return None;
        }
    }
    Some(render(absolute(p), &names))
}

const THERE: &[&str] = &["/t/root/dist", "/t/root/a", "/t/other/secret.txt", "/t/cache"];

fn facts_with(base: &str, arg: &str, links: &[(&str, &str)]) -> Vec<Option<String>> {
    let ask = |paths: Vec<String>| paths.into_iter().map(|p| really(&p, THERE, links));
    let mut known: Vec<Option<String>> = ask(candidates(base, arg)).collect();
    let again = candidates_again(base, arg, &known);
    known.extend(ask(again));
    known
}

fn facts(base: &str, arg: &str) -> Vec<Option<String>> {
    facts_with(base, arg, &[])
}

fn bounds() -> Bounds {
    Bounds::new("/t/root", vec![])
}

#[test]
fn permits_paths_inside_the_workspace() {
    let b = bounds();
    for arg in ["dist", "dist/assets/app.js", "./a/../b", "."] {
        assert!(
            b.check("rm", "/t/root", arg, &facts("/t/root", arg)).is_ok(),
            "'{arg}' should be inside the workspace"
        );
    }
}

#[test]
fn refuses_paths_above_the_workspace() {
    let b = bounds();
    for arg in ["..", "../sibling", "../../etc/passwd", "dist/../.."] {
        let err = b
            .check("rm", "/t/root", arg, &facts("/t/root", arg))
            .unwrap_err()
            .message();
        assert!(err.contains("outside the workspace"), "'{arg}': {err}");
        assert!(err.contains("allow_paths"), "should name the escape hatch");
    }
}

#[test]
fn refuses_an_absolute_path_outside() {
    let b = bounds();
    let other = "/t/other";
    assert!(b.check("rm", "/t/root", other, &facts("/t/root", other)).is_err());
    // An absolute path that happens to be inside is still fine.
    let inside = "/t/root/dist";
    assert!(b.check("rm", "/t/root", inside, &facts("/t/root", inside)).is_ok());
}

#[test]
fn follows_a_symlink_out_of_the_workspace() {
    let b = bounds();
    let links = [("/t/root/escape", "/t/other")];
    for arg in ["escape/secret.txt", "escape", "escape/new.txt"] {
        let known = facts_with("/t/root", arg, &links);
        assert!(b.check("rm", "/t/root", arg, &known).is_err(), "{arg}");
    }
}

#[test]
fn a_link_is_followed_in_front_of_a_missing_part() {
    let b = bounds();
    let links = [("/t/root/escape", "/t/other")];
    for arg in [
        "escape/none/../secret.txt",
        "escape/none/./x",
        "escape/./none/..",
        "dist/none/../../escape/x",
    ] {
        let known = facts_with("/t/root", arg, &links);
        assert!(b.check("rm", "/t/root", arg, &known).is_err(), "{arg}");
    }
    let arg = "dist/none/../a";
    let known = facts_with("/t/root", arg, &links);
    assert_eq!(
        b.check("rm", "/t/root", arg, &known).unwrap(),
        "/t/root/dist/a"
    );
}

#[test]
fn allow_paths_widens_the_boundary() {
    let b = Bounds::new("/t/root", vec!["/t/cache".to_string()]);
    let out = "/t/cache/out";
    assert!(b.check("cp", "/t/root", out, &facts("/t/root", out)).is_ok());
    // Only the listed path, not its parent or its siblings.
    let elsewhere = "/t/other";
    assert!(b
        .check("cp", "/t/root", elsewhere, &facts("/t/root", elsewhere))
        .is_err());
    assert!(b.check("cp", "/t/root", "/t", &facts("/t/root", "/t")).is_err());
}

#[test]
fn unbounded_permits_anything() {
    let b = Bounds::unbounded();
    let arg = "../../../etc";
    assert!(b.check("rm", "/t/root", arg, &facts("/t/root", arg)).is_ok());
}

#[test]
fn resolves_a_path_that_does_not_exist_yet() {
    let b = bounds();
    let arg = "build/deep/nested";
    assert!(b.check("mkdir", "/t/root", arg, &facts("/t/root", arg)).is_ok());
    assert_eq!(
        resolve("/t/root", arg, &facts("/t/root", arg)),
        "/t/root/build/deep/nested"
    );
    let arg = "build/../../escape";
    assert!(b.check("mkdir", "/t/root", arg, &facts("/t/root", arg)).is_err());
}

#[test]
fn a_pattern_is_judged_by_what_stands_before_it() {
    assert_eq!(glob_prefix("apps/*"), "apps");
    assert_eq!(glob_prefix("../*"), "..");
    assert_eq!(glob_prefix("apps/web"), "apps/web");
}

#[test]
fn every_path_of_a_config_is_checked() {
    let cfg = Config::load(
        "[workspace]\nmembers = [\"apps/*\"]\n\
         [tasks.a]\nrun = \"x\"\ndir = \"sub\"\nenv_file = \".e\"\n\
         [tasks.b]\npackages = [\"apps/web\"]\n",
        "/t/root",
    )
    .unwrap();
    let mut args: Vec<String> = config_paths(&cfg).into_iter().map(|c| c.arg).collect();
    args.sort();
    assert_eq!(args, vec![".e", "apps", "apps/web", "sub"]);
}

fn pair(k: &str, v: &str) -> Vec<(String, String)> {
    vec![(k.to_string(), v.to_string())]
}

#[test]
fn guarded_names_are_compared_as_the_platform_does() {
    let v = pair("ld_preload", "x");
    assert!(check_pairs("[env]", &v, ':', false).is_ok());
    assert!(check_pairs("[env]", &v, ';', true).is_err());
    assert!(check_pairs("[env]", &pair("TSR_X", "1"), ':', false).is_err());
    assert!(check_pairs("[env]", &pair("CC", "clang"), ':', false).is_ok());
}

#[test]
fn path_may_not_name_the_working_directory() {
    for v in [":$PATH", "$PATH:", ".:$PATH", "a::$PATH", "/only"] {
        assert!(check_pairs("[env]", &pair("PATH", v), ':', false).is_err(), "{v}");
    }
    for v in ["./bin:$PATH", "$PATH:/x", "${PATH}:y"] {
        assert!(check_pairs("[env]", &pair("PATH", v), ':', false).is_ok(), "{v}");
    }
}

#[test]
fn the_guard_looks_at_the_tasks_that_run() {
    let cfg = Config::load(
        "[tasks.a]\nrun = \"x\"\n[tasks.b]\nrun = \"x\"\nenv = { BASH_ENV = \"e\" }\n",
        "/t/root",
    )
    .unwrap();
    let look = |key: &str, allow: bool| {
        check(
            &cfg,
            &vec![key.to_string()],
            &vec![],
            &vec![vec![]],
            ':',
            false,
            allow,
        )
    };
    assert!(look("a", false).is_ok());
    assert!(look("b", false).is_err());
    assert!(look("b", true).is_ok());
    assert!(EnvMap::new().get("BASH_ENV").is_none());
}
