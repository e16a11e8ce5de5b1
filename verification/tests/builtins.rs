//! The builtins, run over files that live in memory.

use std::collections::BTreeMap;
use std::fmt::Write;

use tsr::builtins::{
    cp, destination, exit_code, fail, flags, is_builtin, mv, names, rm, run, touch, Doing, Found,
    Op, Plan, FAIL, USAGE,
};
use tsr::path::{join, to_slash};

/// Files by path; a directory has no text.
struct Files {
    cwd: String,
    at: BTreeMap<String, Option<String>>,
    out: String,
}

impl Files {
    fn new() -> Files {
        let mut files = Files {
            cwd: "/w".to_string(),
            at: BTreeMap::new(),
            out: String::new(),
        };
        files.dir("/w");
        files
    }

    fn dir(&mut self, p: &str) {
        let mut here = to_slash(p);
        while here != "/" && !here.is_empty() {
            self.at.insert(here.clone(), None);
            here.truncate(here.rfind('/').unwrap_or(0));
        }
    }

    fn write(&mut self, rel: &str, body: &str) {
        let p = join(&self.cwd, rel);
        let parent = p[..p.rfind('/').unwrap()].to_string();
        self.dir(&parent);
        self.at.insert(p, Some(body.to_string()));
    }

    fn is_there(&self, rel: &str) -> bool {
        self.at.contains_key(&join(&self.cwd, rel))
    }

    fn is_file(&self, rel: &str) -> bool {
        matches!(self.at.get(&join(&self.cwd, rel)), Some(Some(_)))
    }

    fn read(&self, rel: &str) -> &str {
        self.at[&join(&self.cwd, rel)].as_deref().unwrap()
    }

    fn is_dir(&self, p: &str) -> bool {
        matches!(self.at.get(&to_slash(p)), Some(None))
    }

    fn has_parent(&self, p: &str) -> bool {
        self.is_dir(&p[..p.rfind('/').unwrap()])
    }

    fn found(&self, p: &str) -> Found {
        match self.at.get(&to_slash(p)) {
            None => Found::Missing("No such file".to_string()),
            Some(None) => Found::Directory,
            Some(Some(_)) => Found::Other,
        }
    }

    fn below(&self, p: &str) -> Vec<(String, Option<String>)> {
        let inside = format!("{p}/");
        self.at
            .iter()
            .filter(|(k, _)| *k == p || k.starts_with(&inside))
            .map(|(k, v)| (k.clone(), v.clone()))
            .collect()
    }

    fn copy_tree(&mut self, src: &str, dst: &str) -> bool {
        let all = self.below(src);
        for (k, v) in &all {
            self.at.insert(format!("{dst}{}", &k[src.len()..]), v.clone());
        }
        !all.is_empty()
    }

    fn remove_tree(&mut self, p: &str) -> bool {
        for (k, _) in self.below(p) {
            self.at.remove(&k);
        }
        true
    }

    /// Carry out one operation; whether it worked.
    fn perform(&mut self, op: &Op) -> bool {
        match op {
            Op::Cat(p) => match self.at.get(p) {
                Some(Some(body)) => {
                    self.out.push_str(body);
                    true
                }
                _ => false,
            },
            Op::Mkdir { path, parents } => {
                if *parents {
                    self.dir(path);
                    true
                } else {
                    let fine = !self.at.contains_key(path) && self.has_parent(path);
                    if fine {
                        self.at.insert(path.clone(), None);
                    }
                    fine
                }
            }
            Op::Touch(p) => match touch("touch", p, true) {
                Doing::GoOn => {
                    let fine = self.has_parent(p);
                    if fine {
                        self.at.entry(p.clone()).or_insert(Some(String::new()));
                    }
                    fine
                }
                other => panic!("unexpected {other:?}"),
            },
            Op::Rm {
                path,
                recursive,
                force,
            } => match rm(path, *recursive, *force, true, &self.found(path)) {
                Doing::Fail(_) => false,
                Doing::Ignore => true,
                Doing::RemoveTree => self.remove_tree(path),
                Doing::RemoveFile => self.at.remove(path).is_some(),
                other => panic!("unexpected {other:?}"),
            },
            Op::Cp {
                src,
                dst,
                recursive,
            } => match cp(src, *recursive, true, self.is_dir(src)) {
                Doing::Fail(_) => false,
                Doing::CopyTree => self.copy_tree(src, dst),
                other => panic!("unexpected {other:?}"),
            },
            Op::Mv { src, dst } => {
                let (first, second) = mv(self.is_dir(src));
                assert_eq!(first, Doing::CopyTree);
                if !self.copy_tree(src, dst) {
                    return false;
                }
                match second {
                    Doing::RemoveTree => self.remove_tree(src),
                    Doing::RemoveFile => self.at.remove(src).is_some(),
                    other => panic!("unexpected {other:?}"),
                }
            }
        }
    }

    fn call(&mut self, name: &str, list: &[&str]) -> i32 {
        let args = args(list);
        let into_dir = match destination(name, &args, &self.cwd) {
            Some(p) => self.is_dir(&p),
            None => false,
        };
        match run(name, &args, &self.cwd, into_dir) {
            Plan::Exit { code, .. } => code,
            Plan::Print(text) => {
                self.out.write_str(&text).unwrap();
                0
            }
            Plan::CopyStdin => panic!("reads stdin"),
            Plan::Each(ops) => {
                let failed: Vec<bool> = ops.iter().map(|op| !self.perform(op)).collect();
                exit_code(&failed)
            }
        }
    }
}

fn args(list: &[&str]) -> Vec<String> {
    list.iter().map(|s| s.to_string()).collect()
}

#[test]
fn true_and_false_are_portable_exit_codes() {
    let mut f = Files::new();
    assert_eq!(f.call("true", &[]), 0);
    assert_eq!(f.call("false", &[]), FAIL);
    // Operands are ignored rather than read as flags.
    assert_eq!(f.call("true", &["--anything", "x"]), 0);
    assert_eq!(f.call("false", &["--anything", "x"]), FAIL);
}

#[test]
fn only_listed_names_are_builtins() {
    for name in names() {
        assert!(is_builtin(&name), "{name} is listed but not recognised");
    }
    for name in ["vite", "cargo", "npm", "ls", "sh", "rmdir"] {
        assert!(!is_builtin(name), "{name} must be spawned, not built in");
    }
}

#[test]
fn rm_removes_files_and_trees() {
    let mut f = Files::new();
    f.write("a.txt", "");
    f.write("tree/nested/b.txt", "");
    assert_eq!(f.call("rm", &["a.txt"]), 0);
    assert!(!f.is_there("a.txt"));
    assert_eq!(f.call("rm", &["-r", "tree"]), 0);
    assert!(!f.is_there("tree"));
    assert!(!f.is_there("tree/nested/b.txt"));
}

#[test]
fn rm_needs_r_for_a_directory() {
    let mut f = Files::new();
    f.dir("/w/d");
    assert_eq!(f.call("rm", &["d"]), FAIL);
    assert!(f.is_there("d"));
}

#[test]
fn rm_force_ignores_missing_and_empty_operands() {
    let mut f = Files::new();
    assert_eq!(f.call("rm", &["-rf", "dist/*"]), 0);
    assert_eq!(f.call("rm", &["-f"]), 0);
    assert_eq!(f.call("rm", &["missing"]), FAIL);
    assert_eq!(f.call("rm", &[]), USAGE);
}

#[test]
fn rm_accepts_bundled_and_long_flags() {
    let mut f = Files::new();
    f.write("t1/x", "");
    f.write("t2/x", "");
    assert_eq!(f.call("rm", &["-rf", "t1"]), 0);
    assert_eq!(f.call("rm", &["--recursive", "--force", "t2"]), 0);
    assert!(!f.is_there("t1") && !f.is_there("t2"));
}

#[test]
fn rm_rejects_unknown_flags() {
    let mut f = Files::new();
    assert_eq!(f.call("rm", &["-z", "x"]), USAGE);
    assert_eq!(f.call("rm", &["--zap", "x"]), USAGE);
}

#[test]
fn rm_treats_double_dash_as_end_of_options() {
    let mut f = Files::new();
    f.write("-weird", "");
    assert_eq!(f.call("rm", &["--", "-weird"]), 0);
    assert!(!f.is_there("-weird"));
}

#[test]
fn mkdir_p_creates_parents_and_is_idempotent() {
    let mut f = Files::new();
    assert_eq!(f.call("mkdir", &["-p", "a/b/c"]), 0);
    assert!(f.is_dir("/w/a/b/c"));
    assert_eq!(f.call("mkdir", &["-p", "a/b/c"]), 0);
    // Without -p, a missing parent and an existing dir both fail.
    assert_eq!(f.call("mkdir", &["x/y"]), FAIL);
    assert_eq!(f.call("mkdir", &["a"]), FAIL);
    assert_eq!(f.call("mkdir", &[]), USAGE);
}

#[test]
fn touch_creates_without_truncating() {
    let mut f = Files::new();
    assert_eq!(f.call("touch", &["new.txt"]), 0);
    assert!(f.is_file("new.txt"));
    f.write("kept.txt", "body");
    assert_eq!(f.call("touch", &["kept.txt"]), 0);
    assert_eq!(f.read("kept.txt"), "body");
    assert_eq!(f.call("touch", &[]), USAGE);
}

#[test]
fn touch_resolves_absolute_paths() {
    let mut f = Files::new();
    f.dir("/other");
    assert_eq!(
        f.call("touch", &["/other/marker"]),
        0,
        "absolute operands must not be joined onto cwd"
    );
    assert!(f.is_file("/other/marker"));
}

#[test]
fn cp_copies_file_and_tree() {
    let mut f = Files::new();
    f.write("src.txt", "body");
    assert_eq!(f.call("cp", &["src.txt", "dst.txt"]), 0);
    assert_eq!(f.read("dst.txt"), "body");

    f.write("tree/nested/leaf.txt", "deep");
    assert_eq!(f.call("cp", &["-r", "tree", "copy"]), 0);
    assert_eq!(f.read("copy/nested/leaf.txt"), "deep");
}

#[test]
fn cp_needs_r_for_a_directory() {
    let mut f = Files::new();
    f.dir("/w/d");
    assert_eq!(f.call("cp", &["d", "e"]), FAIL);
}

#[test]
fn cp_into_existing_directory_keeps_basenames() {
    let mut f = Files::new();
    f.write("a.txt", "a");
    f.write("b.txt", "b");
    f.dir("/w/out");
    assert_eq!(f.call("cp", &["a.txt", "b.txt", "out"]), 0);
    assert!(f.is_file("out/a.txt") && f.is_file("out/b.txt"));
}

#[test]
fn cp_rejects_multiple_sources_without_a_directory() {
    let mut f = Files::new();
    f.write("a.txt", "a");
    f.write("b.txt", "b");
    assert_eq!(f.call("cp", &["a.txt", "b.txt", "nope"]), USAGE);
    assert_eq!(f.call("cp", &["only.txt"]), USAGE);
}

#[test]
fn mv_renames_and_moves_into_directory() {
    let mut f = Files::new();
    f.write("a.txt", "a");
    assert_eq!(f.call("mv", &["a.txt", "b.txt"]), 0);
    assert!(!f.is_there("a.txt"));
    assert_eq!(f.read("b.txt"), "a");

    f.dir("/w/out");
    assert_eq!(f.call("mv", &["b.txt", "out"]), 0);
    assert!(f.is_file("out/b.txt"));
}

#[test]
fn mv_reports_a_missing_source() {
    let mut f = Files::new();
    assert_eq!(f.call("mv", &["ghost.txt", "x.txt"]), FAIL);
}

#[test]
fn echo_joins_args_and_honours_leading_n() {
    let mut f = Files::new();
    assert_eq!(f.call("echo", &["-n", "a", "b"]), 0);
    assert_eq!(f.out, "a b");
    f.out.clear();
    assert_eq!(f.call("echo", &["--first", "--second"]), 0);
    assert_eq!(f.out, "--first --second\n");
    f.out.clear();
    assert_eq!(f.call("echo", &[]), 0);
    assert_eq!(f.out, "\n");
}

#[test]
fn cat_reports_a_missing_file_but_continues() {
    let mut f = Files::new();
    f.write("a.txt", "a");
    assert_eq!(f.call("cat", &["a.txt"]), 0);
    assert_eq!(f.call("cat", &["ghost.txt", "a.txt"]), FAIL);
    assert_eq!(f.call("cat", &["a.txt", "ghost.txt"]), FAIL);
    assert_eq!(f.out, "aaa");
}

#[test]
fn pwd_reports_the_job_directory() {
    let mut f = Files::new();
    assert_eq!(f.call("pwd", &[]), 0);
    assert_eq!(f.out, "/w\n");
}

#[test]
fn a_builtin_refuses_paths_outside() {
    let outside = "outside the workspace (add it to `[security] allow_paths` if that is intended)";
    let there = Found::Directory;
    for (recursive, force) in [(false, false), (true, true)] {
        assert_eq!(
            rm("/etc", recursive, force, false, &there),
            Doing::Fail(format!("rm: /etc: {outside}"))
        );
    }
    assert_eq!(
        cp("/etc", true, false, true),
        Doing::Fail(format!("cp: /etc: {outside}"))
    );
    assert_eq!(
        touch("mkdir", "/etc", false),
        Doing::Fail(format!("mkdir: /etc: {outside}"))
    );
    assert_eq!(touch("mkdir", "/w/a", true), Doing::GoOn);
}

#[test]
fn the_root_is_never_removed() {
    assert_eq!(
        rm("/", true, true, true, &Found::Directory),
        Doing::Fail("rm: refusing to remove root directory '/'".to_string())
    );
}

#[test]
fn a_link_is_removed_and_not_what_it_leads_to() {
    assert_eq!(rm("/w/l", true, false, true, &Found::Other), Doing::RemoveFile);
}

#[test]
fn flags_end_at_a_double_dash() {
    let (o, operands) = flags("rm", &args(&["-r", "--", "-f", "x"])).unwrap();
    assert!(o.recursive && !o.force);
    assert_eq!(operands, vec!["-f", "x"]);
}

#[test]
fn one_failure_decides_the_code() {
    assert_eq!(exit_code(&vec![]), 0);
    assert_eq!(exit_code(&vec![false, false]), 0);
    assert_eq!(exit_code(&vec![false, true, false]), FAIL);
    assert_eq!(fail("cat", "a", "gone"), "cat: a: gone");
}

#[test]
fn cat_without_operands_copies_stdin() {
    assert_eq!(run("cat", &vec![], "/w", false), Plan::CopyStdin);
    assert_eq!(
        run("vite", &vec![], "/w", false),
        Plan::Exit {
            code: USAGE,
            message: Some("tsr: 'vite' is not a builtin".to_string()),
        }
    );
}
