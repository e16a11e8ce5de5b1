//! Packages: how they are found, named, linked and selected.

use tsr::changed::{affected, changed_files, diff_args, untracked_args, GitOutput};
use tsr::config::{Config, Delegate, Task};
use tsr::detect::{detect, manifest_deps, manifest_name, Ecosystem, Markers};
use tsr::error::TsrError;
use tsr::pkggraph::PackageGraph;
use tsr::resolve::{resolve, Invocation};
use tsr::workspace::{
    choose_packages, glob_answers, match_packages, member_queries, packages, pattern_matches, Found,
    Package,
};

fn markers(files: &[&str]) -> Markers {
    let has = |f: &str| files.contains(&f);
    Markers {
        package_json: has("package.json"),
        bun_lock: has("bun.lockb") || has("bun.lock"),
        cargo_toml: has("Cargo.toml"),
        go_mod: has("go.mod"),
        pyproject_toml: has("pyproject.toml"),
    }
}

/// The `Cargo.toml` texts above a directory, nearest first; `root` is the one at
/// `/ws`.
fn cargo_above(rel: &str, pkgs: &[(&str, &str, &str)], root: Option<&str>) -> Vec<String> {
    let mut out = Vec::new();
    let mut dir = rel;
    while let Some(at) = dir.rfind('/') {
        dir = &dir[..at];
        for (other, marker, contents) in pkgs {
            if *other == dir && *marker == "Cargo.toml" {
                out.push(contents.to_string());
            }
        }
    }
    out.extend(root.map(str::to_string));
    out
}

/// The packages of a workspace at `/ws` made of `(directory, marker, contents)`,
/// found through its `members`.
fn enumerate(members: &[&str], pkgs: &[(&str, &str, &str)], cargo_root: Option<&str>) -> Vec<Package> {
    let list: Vec<String> = members.iter().map(|m| format!("\"{m}\"")).collect();
    let text = format!("[workspace]\nmembers = [{}]\n", list.join(", "));
    let cfg = Config::load(&text, "/ws").unwrap();
    let mut dirs: Vec<&(&str, &str, &str)> = pkgs.iter().collect();
    dirs.sort();
    let mut found = Vec::new();
    for query in member_queries(&cfg) {
        let pattern = glob::Pattern::new(&query).unwrap();
        for (rel, marker, contents) in &dirs {
            let path = format!("/ws/{rel}");
            if pattern.matches(&path) {
                found.push(Found {
                    path,
                    is_dir: true,
                    markers: markers(&[marker]),
                    manifest: contents.to_string(),
                    above: cargo_above(rel, pkgs, cargo_root),
                });
            }
        }
    }
    packages("/ws", &found)
}

fn graph(members: &[&str], pkgs: &[(&str, &str, &str)]) -> PackageGraph {
    PackageGraph::from_packages(enumerate(members, pkgs, None))
}

/// Relative paths of a package set, for readable assertions.
fn rels(g: &PackageGraph, idx: &Vec<usize>) -> Vec<String> {
    let mut v = g.rels(idx);
    v.sort();
    v
}

fn pkg_json(name: &str, deps: &[&str]) -> String {
    let entries = deps
        .iter()
        .map(|d| format!("\"{d}\": \"workspace:*\""))
        .collect::<Vec<_>>()
        .join(", ");
    format!("{{\"name\": \"{name}\", \"dependencies\": {{{entries}}}}}")
}

// --- detection ---

#[test]
fn detects_npm_and_bun() {
    assert_eq!(detect(&markers(&["package.json"])), Some(Ecosystem::Npm));
    assert_eq!(
        detect(&markers(&["package.json", "bun.lockb"])),
        Some(Ecosystem::Bun)
    );
}

#[test]
fn detects_cargo_go_python() {
    assert_eq!(detect(&markers(&["Cargo.toml"])), Some(Ecosystem::Cargo));
    assert_eq!(detect(&markers(&["go.mod"])), Some(Ecosystem::Go));
    assert_eq!(
        detect(&markers(&["pyproject.toml"])),
        Some(Ecosystem::Python)
    );
}

#[test]
fn none_when_no_marker() {
    assert_eq!(detect(&markers(&[])), None);
    assert_eq!(detect(&markers(&["bun.lock"])), None);
}

#[test]
fn reads_manifest_names() {
    assert_eq!(
        manifest_name(
            "{\n  \"name\": \"@scope/web\",\n  \"version\": \"1\"\n}",
            Ecosystem::Npm
        ),
        Some("@scope/web".into())
    );
    assert_eq!(
        manifest_name("[package]\nname = \"my-crate\"\n", Ecosystem::Cargo),
        Some("my-crate".into())
    );
    assert_eq!(
        manifest_name("module github.com/me/proj\n\ngo 1.22\n", Ecosystem::Go),
        Some("github.com/me/proj".into())
    );
    assert_eq!(
        manifest_name("[project]\nname = \"pkg\"\n", Ecosystem::Python),
        Some("pkg".into())
    );
}

#[test]
fn reads_declared_dependency_names() {
    // Names are grouped by dependency kind, alphabetical within each.
    assert_eq!(
        manifest_deps(
            r#"{"name": "app", "dependencies": {"ui": "workspace:*", "react": "^18"},
                "devDependencies": {"vitest": "*"}}"#,
            Ecosystem::Npm,
            &vec![]
        ),
        vec!["react", "ui", "vitest"]
    );
    // `alias` contributes the renamed crate's real name, `real`.
    assert_eq!(
        manifest_deps(
            "[package]\nname = \"app\"\n[dependencies]\nserde = \"1\"\n\
             alias = { package = \"real\", path = \"../real\" }\n[dev-dependencies]\ntempfile = \"3\"\n",
            Ecosystem::Cargo,
            &vec![]
        ),
        vec!["serde", "real", "tempfile"]
    );
    assert_eq!(
        manifest_deps(
            "module example.com/app\n\nrequire single.example/one v1.0.0\n\n\
             require (\n\tex.com/a v0.1.0 // indirect\n\tex.com/b v2.0.0\n)\n",
            Ecosystem::Go,
            &vec![]
        ),
        vec!["single.example/one", "ex.com/a", "ex.com/b"]
    );
}

#[test]
fn strips_pep508_decoration() {
    assert_eq!(
        manifest_deps(
            "[project]\nname = \"app\"\n\
             dependencies = [\"core>=1.0,<2\", \"web[async]\", \"tool ; python_version >= '3.11'\", \"plain\"]\n",
            Ecosystem::Python,
            &vec![]
        ),
        vec!["core", "web", "tool", "plain"]
    );
}

#[test]
fn go_reader_ignores_lookalike_directives() {
    assert_eq!(
        manifest_deps(
            "module example.com/app\n\nrequirements v1\nreplacement v2\nrequire real.example/x v1.0.0\n",
            Ecosystem::Go,
            &vec![]
        ),
        vec!["real.example/x"]
    );
}

#[test]
fn malformed_manifests_yield_nothing() {
    let text = "{ this is not json";
    assert_eq!(manifest_name(text, Ecosystem::Npm), None);
    assert!(manifest_deps(text, Ecosystem::Npm, &vec![]).is_empty());

    let text = "[package\nname =";
    assert_eq!(manifest_name(text, Ecosystem::Cargo), None);
    assert!(manifest_deps(text, Ecosystem::Cargo, &vec![]).is_empty());

    // A manifest that is absent entirely is equally inert.
    assert!(manifest_deps("", Ecosystem::Go, &vec![]).is_empty());
}

#[test]
fn native_command_conventions() {
    assert_eq!(
        Ecosystem::Npm.native_command("test"),
        ("npm".into(), vec!["run".into(), "test".into()])
    );
    assert_eq!(
        Ecosystem::Cargo.native_command("test"),
        ("cargo".into(), vec!["test".into()])
    );
    assert_eq!(
        Ecosystem::Go.native_command("build"),
        ("go".into(), vec!["build".into()])
    );
    assert_eq!(
        Ecosystem::Python.native_command("lint"),
        ("uv".into(), vec!["run".into(), "lint".into()])
    );
}

// --- resolution ---

fn task(key: &str) -> Task {
    Task::new(key)
}

#[test]
fn delegate_string_becomes_bin_run_task() {
    let mut t = task("build");
    t.delegate = Some(Delegate::Bin("turbo".into()));
    assert_eq!(
        resolve(&t, "/ws", &markers(&[])).unwrap(),
        Invocation::Direct {
            program: "turbo".into(),
            args: vec!["run".into(), "build".into()],
        }
    );
}

#[test]
fn delegate_string_uses_task_name_not_full_key() {
    let mut t = task("web#build");
    t.delegate = Some(Delegate::Bin("turbo".into()));
    let Invocation::Direct { args, .. } = resolve(&t, "/ws", &markers(&[])).unwrap() else {
        panic!();
    };
    assert_eq!(args, vec!["run", "build"]);
}

#[test]
fn delegate_table_is_verbatim() {
    let mut t = task("bundle");
    t.delegate = Some(Delegate::Full {
        bin: "make".into(),
        args: vec!["bundle".into()],
    });
    assert_eq!(
        resolve(&t, "/ws", &markers(&[])).unwrap(),
        Invocation::Direct {
            program: "make".into(),
            args: vec!["bundle".into()],
        }
    );
}

#[test]
fn run_takes_precedence_over_autodetect() {
    let mut t = task("dev");
    t.run = Some("vite".into());
    assert_eq!(
        resolve(&t, "/ws", &markers(&["Cargo.toml"])).unwrap(),
        Invocation::Run("vite".into())
    );
}

#[test]
fn delegate_takes_precedence_over_run() {
    let mut t = task("build");
    t.run = Some("should-not-run".into());
    t.delegate = Some(Delegate::Bin("turbo".into()));
    let Invocation::Direct { program, .. } = resolve(&t, "/ws", &markers(&[])).unwrap() else {
        panic!();
    };
    assert_eq!(program, "turbo");
}

#[test]
fn autodetect_maps_to_native_runner() {
    assert_eq!(
        resolve(&task("test"), "/ws", &markers(&["Cargo.toml"])).unwrap(),
        Invocation::Direct {
            program: "cargo".into(),
            args: vec!["test".into()],
        }
    );
}

#[test]
fn autodetect_failure_is_runtime_error() {
    let err = resolve(&task("test"), "/ws", &markers(&[])).unwrap_err();
    assert!(matches!(err, TsrError::Runtime(_)));
    assert_eq!(err.exit_code(), 64);
}

// --- enumeration and selection ---

#[test]
fn enumerates_packages_with_markers() {
    let pkgs = enumerate(
        &["apps/*", "packages/*"],
        &[
            ("apps/web", "package.json", "{\"name\": \"@scope/web\"}"),
            ("packages/ui", "Cargo.toml", "[package]\nname = \"ui\"\n"),
            ("apps/no-marker", "README.md", ""),
        ],
        None,
    );
    let rels: Vec<&str> = pkgs.iter().map(|p| p.rel.as_str()).collect();
    assert_eq!(rels, vec!["apps/web", "packages/ui"]);
    assert_eq!(pkgs[0].name.as_deref(), Some("@scope/web"));
}

#[test]
fn a_match_that_is_no_directory_is_no_package() {
    let found = vec![Found {
        path: "/ws/apps/file".into(),
        is_dir: false,
        markers: markers(&["package.json"]),
        manifest: "{}".into(),
        above: vec![],
    }];
    assert!(packages("/ws", &found).is_empty());
}

#[test]
fn an_inherited_crate_is_named_by_the_nearest_cargo_workspace() {
    let outer = "[workspace.dependencies]\nui = { package = \"outer-ui\" }\n";
    let inner = "[package]\nname = \"inner\"\n[dependencies]\nui = { workspace = true }\n\
                 [workspace.dependencies]\nui = { package = \"inner-ui\" }\n";
    let member = "[package]\nname = \"m\"\n[dependencies]\nui = { workspace = true }\n";
    let all = enumerate(
        &["*", "*/*", "*/*/*"],
        &[
            ("inner", "Cargo.toml", inner),
            ("inner/m", "Cargo.toml", member),
            ("inner/m/plain", "Cargo.toml", member),
            ("other", "Cargo.toml", member),
        ],
        Some(outer),
    );
    let declared: Vec<(&str, &str)> = all
        .iter()
        .map(|p| (p.rel.as_str(), p.declared[0].as_str()))
        .collect();
    assert_eq!(
        declared,
        vec![
            ("inner", "inner-ui"),
            ("inner/m", "inner-ui"),
            ("inner/m/plain", "inner-ui"),
            ("other", "outer-ui"),
        ]
    );
}

#[test]
fn a_manifest_that_is_no_cargo_workspace_is_passed_over() {
    let member = "[dependencies]\nui = { workspace = true }\n";
    let above = |texts: &[&str]| texts.iter().map(|t| t.to_string()).collect::<Vec<String>>();
    let root = "[workspace.dependencies]\nui = { package = \"real-ui\" }\n";
    for near in ["[package]\nname = \"p\"\n", "[package\nname =", ""] {
        assert_eq!(
            manifest_deps(member, Ecosystem::Cargo, &above(&[near, root])),
            vec!["real-ui"],
            "{near:?}"
        );
    }
    assert_eq!(
        manifest_deps(member, Ecosystem::Cargo, &above(&["[workspace]\n", root])),
        vec!["ui"]
    );
    assert_eq!(manifest_deps(member, Ecosystem::Cargo, &vec![]), vec!["ui"]);
}

#[test]
fn a_package_matched_twice_is_listed_once() {
    let pkgs = enumerate(
        &["apps/*", "apps/web"],
        &[("apps/web", "package.json", "{}")],
        None,
    );
    assert_eq!(pkgs.len(), 1);
}

#[test]
fn matches_path_glob() {
    let all = enumerate(
        &["apps/*"],
        &[
            ("apps/web", "package.json", "{}"),
            ("apps/api", "package.json", "{}"),
        ],
        None,
    );
    let m = match_packages(&all, &vec!["apps/*".into()], "test").unwrap();
    assert_eq!(m.len(), 2);
}

#[test]
fn matches_manifest_name() {
    let all = enumerate(
        &["packages/*"],
        &[("packages/ui", "package.json", "{\"name\": \"@scope/ui\"}")],
        None,
    );
    let m = match_packages(&all, &vec!["@scope/ui".into()], "test").unwrap();
    assert_eq!(m.len(), 1);
    assert_eq!(all[m[0]].rel, "packages/ui");
}

#[test]
fn dedups_across_patterns() {
    let all = enumerate(
        &["apps/*"],
        &[("apps/web", "package.json", "{\"name\": \"web\"}")],
        None,
    );
    let m = match_packages(&all, &vec!["apps/*".into(), "web".into()], "test").unwrap();
    assert_eq!(m.len(), 1);
}

#[test]
fn unmatched_pattern_is_error() {
    let all = enumerate(&["apps/*"], &[("apps/web", "package.json", "{}")], None);
    let err = match_packages(&all, &vec!["nope/*".into()], "test").unwrap_err();
    assert_eq!(err.exit_code(), 64);
}

// --- the graph ---

#[test]
fn links_workspace_deps_and_drops_external_ones() {
    let g = graph(
        &["apps/*", "packages/*"],
        &[
            (
                "apps/web",
                "package.json",
                &pkg_json("@scope/web", &["@scope/ui", "react"]),
            ),
            ("packages/ui", "package.json", &pkg_json("@scope/ui", &[])),
        ],
    );
    let web = g.index_of("@scope/web").unwrap();
    let ui = g.index_of("packages/ui").unwrap();
    assert_eq!(g.deps_of(web), &[ui]);
    assert_eq!(g.dependents_of(ui), &[web]);
    // `react` matched no workspace package, so it produced no edge.
    assert_eq!(g.deps_of(ui), &[] as &[usize]);
}

#[test]
fn indexes_by_path_and_by_name() {
    let g = graph(
        &["packages/*"],
        &[("packages/ui", "package.json", &pkg_json("@scope/ui", &[]))],
    );
    assert_eq!(g.index_of("packages/ui"), g.index_of("@scope/ui"));
    assert!(g.index_of("nope").is_none());
}

#[test]
fn collects_every_npm_dependency_kind() {
    let g = graph(
        &["packages/*"],
        &[
            (
                "packages/app",
                "package.json",
                r#"{"name": "app",
                        "dependencies": {"a": "*"},
                        "devDependencies": {"b": "*"},
                        "peerDependencies": {"c": "*"},
                        "optionalDependencies": {"d": "*"}}"#,
            ),
            ("packages/a", "package.json", &pkg_json("a", &[])),
            ("packages/b", "package.json", &pkg_json("b", &[])),
            ("packages/c", "package.json", &pkg_json("c", &[])),
            ("packages/d", "package.json", &pkg_json("d", &[])),
        ],
    );
    let app = g.index_of("app").unwrap();
    assert_eq!(
        rels(&g, g.deps_of(app)),
        vec!["packages/a", "packages/b", "packages/c", "packages/d"]
    );
}

#[test]
fn links_cargo_path_and_renamed_deps() {
    let g = graph(
        &["crates/*"],
        &[
            (
                "crates/app",
                "Cargo.toml",
                "[package]\nname = \"app\"\n[dependencies]\ncore = { path = \"../core\" }\n\
                 aliased = { package = \"helper\", path = \"../helper\" }\nserde = \"1\"\n",
            ),
            ("crates/core", "Cargo.toml", "[package]\nname = \"core\"\n"),
            (
                "crates/helper",
                "Cargo.toml",
                "[package]\nname = \"helper\"\n",
            ),
        ],
    );
    let app = g.index_of("app").unwrap();
    assert_eq!(
        rels(&g, g.deps_of(app)),
        vec!["crates/core", "crates/helper"]
    );
}

#[test]
fn links_go_require_block_and_replace() {
    let g = graph(
        &["services/*", "libs/*"],
        &[
            (
                "services/api",
                "go.mod",
                "module example.com/api\n\ngo 1.22\n\n\
                 require (\n\texample.com/lib v0.1.0 // indirect\n\tgithub.com/ext/x v1.0.0\n)\n\n\
                 replace example.com/other => ../other\n",
            ),
            ("libs/lib", "go.mod", "module example.com/lib\n"),
            ("libs/other", "go.mod", "module example.com/other\n"),
        ],
    );
    let api = g.index_of("services/api").unwrap();
    assert_eq!(rels(&g, g.deps_of(api)), vec!["libs/lib", "libs/other"]);
}

#[test]
fn links_python_pep621_and_poetry_deps() {
    let g = graph(
        &["pkgs/*"],
        &[
            (
                "pkgs/app",
                "pyproject.toml",
                "[project]\nname = \"app\"\ndependencies = [\"core>=1.0\", \"requests\"]\n\
                 [project.optional-dependencies]\ntest = [\"harness[extra] ; python_version > '3'\"]\n",
            ),
            (
                "pkgs/svc",
                "pyproject.toml",
                "[tool.poetry]\nname = \"svc\"\n[tool.poetry.dependencies]\ncore = \"^1.0\"\n",
            ),
            (
                "pkgs/core",
                "pyproject.toml",
                "[project]\nname = \"core\"\n",
            ),
            (
                "pkgs/harness",
                "pyproject.toml",
                "[project]\nname = \"harness\"\n",
            ),
        ],
    );
    let app = g.index_of("app").unwrap();
    assert_eq!(rels(&g, g.deps_of(app)), vec!["pkgs/core", "pkgs/harness"]);
    let svc = g.index_of("svc").unwrap();
    assert_eq!(rels(&g, g.deps_of(svc)), vec!["pkgs/core"]);
}

fn chain() -> PackageGraph {
    graph(
        &["apps/*", "packages/*"],
        &[
            ("apps/web", "package.json", &pkg_json("web", &["ui"])),
            ("packages/ui", "package.json", &pkg_json("ui", &["tokens"])),
            ("packages/tokens", "package.json", &pkg_json("tokens", &[])),
        ],
    )
}

#[test]
fn closures_are_transitive_in_both_directions() {
    // web -> ui -> tokens
    let g = chain();
    let web = g.index_of("web").unwrap();
    let tokens = g.index_of("tokens").unwrap();
    assert_eq!(
        rels(&g, &g.upstream_closure(&vec![web])),
        vec!["packages/tokens", "packages/ui"]
    );
    assert_eq!(
        rels(&g, &g.downstream_closure(&vec![tokens])),
        vec!["apps/web", "packages/ui"]
    );
}

#[test]
fn topo_order_puts_dependencies_first() {
    let g = chain();
    let order = g.topo_order().unwrap();
    assert_eq!(
        g.rels(&order),
        vec!["packages/tokens", "packages/ui", "apps/web"]
    );
}

#[test]
fn cyclic_package_graph_builds_but_cannot_be_ordered() {
    let g = graph(
        &["packages/*"],
        &[
            ("packages/a", "package.json", &pkg_json("a", &["b"])),
            ("packages/b", "package.json", &pkg_json("b", &["a"])),
        ],
    );
    // Construction and traversal still work: only ordering is impossible. The
    // walk ends, and `a` stays out of its own upstream set.
    let a = g.index_of("a").unwrap();
    assert_eq!(rels(&g, &g.upstream_closure(&vec![a])), vec!["packages/b"]);

    let err = g.topo_order().unwrap_err();
    assert!(err.message().contains("cycle"), "{}", err.message());
    assert!(err.message().contains("packages/a"), "{}", err.message());
    assert_eq!(err.exit_code(), 64);
}

#[test]
fn self_dependency_is_not_an_edge() {
    let g = graph(
        &["packages/*"],
        &[("packages/a", "package.json", &pkg_json("a", &["a"]))],
    );
    let a = g.index_of("a").unwrap();
    assert_eq!(g.deps_of(a), &[] as &[usize]);
    assert_eq!(g.topo_order().unwrap(), vec![a]);
}

#[test]
fn duplicate_declaration_yields_one_edge() {
    let g = graph(
        &["packages/*"],
        &[
            (
                "packages/app",
                "package.json",
                r#"{"name": "app", "dependencies": {"lib": "*"}, "devDependencies": {"lib": "*"}}"#,
            ),
            ("packages/lib", "package.json", &pkg_json("lib", &[])),
        ],
    );
    assert_eq!(g.deps_of(g.index_of("app").unwrap()).len(), 1);
}

#[test]
fn unnamed_and_malformed_manifests_are_inert() {
    let g = graph(
        &["packages/*"],
        &[
            ("packages/broken", "package.json", "{ not json"),
            ("packages/anon", "package.json", "{}"),
            ("packages/ok", "package.json", &pkg_json("ok", &[])),
        ],
    );
    assert_eq!(g.packages().len(), 3);
    assert!(g.topo_order().is_ok());
    assert_eq!(
        g.index_of("packages/broken").map(|i| g.deps_of(i).len()),
        Some(0)
    );
}

#[test]
fn empty_workspace_is_valid() {
    let g = PackageGraph::from_packages(Vec::new());
    assert!(g.packages().is_empty());
    assert!(g.topo_order().unwrap().is_empty());
    assert!(g.upstream_closure(&vec![]).is_empty());
}

#[test]
fn mixed_ecosystems_link_within_their_own_naming() {
    let g = graph(
        &["js/*", "rs/*"],
        &[
            ("js/web", "package.json", &pkg_json("web", &["ui"])),
            ("js/ui", "package.json", &pkg_json("ui", &[])),
            (
                "rs/app",
                "Cargo.toml",
                "[package]\nname = \"app\"\n[dependencies]\ncore = { path = \"../core\" }\n",
            ),
            ("rs/core", "Cargo.toml", "[package]\nname = \"core\"\n"),
        ],
    );
    assert_eq!(g.packages().len(), 4);
    assert_eq!(
        rels(&g, g.deps_of(g.index_of("web").unwrap())),
        vec!["js/ui"]
    );
    assert_eq!(
        rels(&g, g.deps_of(g.index_of("app").unwrap())),
        vec!["rs/core"]
    );
    assert_eq!(g.get(g.index_of("rs/core").unwrap()).eco, Ecosystem::Cargo);
}

// --- what a change affects ---

/// `apps/web` -> `packages/ui` -> `packages/tokens`, and `apps/docs` by itself.
fn affected_graph() -> PackageGraph {
    graph(
        &["apps/*", "packages/*"],
        &[
            (
                "apps/web",
                "package.json",
                r#"{"name":"web","dependencies":{"ui":"*"}}"#,
            ),
            ("apps/docs", "package.json", r#"{"name":"docs"}"#),
            (
                "packages/ui",
                "package.json",
                r#"{"name":"ui","dependencies":{"tokens":"*"}}"#,
            ),
            ("packages/tokens", "package.json", r#"{"name":"tokens"}"#),
        ],
    )
}

fn affected_rels(files: &[&str]) -> Option<Vec<String>> {
    let g = affected_graph();
    let files: Vec<String> = files.iter().map(|f| f.to_string()).collect();
    affected(&g, &files).map(|set| rels(&g, &set))
}

#[test]
fn a_changed_package_selects_itself() {
    assert_eq!(
        affected_rels(&["apps/docs/index.md"]).unwrap(),
        vec!["apps/docs"]
    );
}

#[test]
fn a_changed_library_selects_its_dependents() {
    assert_eq!(
        affected_rels(&["packages/tokens/src/x.ts"]).unwrap(),
        vec!["apps/web", "packages/tokens", "packages/ui"]
    );
}

#[test]
fn dependents_widen_but_dependencies_do_not() {
    assert_eq!(
        affected_rels(&["apps/web/src/main.ts"]).unwrap(),
        vec!["apps/web"]
    );
}

#[test]
fn a_file_outside_every_package_widens_to_everything() {
    assert!(affected_rels(&["tasks.toml"]).is_none());
    assert!(affected_rels(&[".github/workflows/ci.yml"]).is_none());
    // Even alongside a package-scoped change.
    assert!(affected_rels(&["apps/web/x.ts", "README.md"]).is_none());
}

#[test]
fn no_changes_affects_nothing() {
    assert!(affected_rels(&[]).unwrap().is_empty());
}

#[test]
fn multiple_changes_union_their_effects() {
    assert_eq!(
        affected_rels(&["apps/docs/a.md", "packages/ui/b.ts"]).unwrap(),
        vec!["apps/docs", "apps/web", "packages/ui"]
    );
}

#[test]
fn a_package_directory_prefix_is_not_a_partial_match() {
    assert!(affected_rels(&["apps/website/x.ts"]).is_none());
}

#[test]
fn a_nested_package_owns_its_files() {
    let g = graph(
        &["apps", "apps/*"],
        &[
            ("apps", "package.json", "{}"),
            ("apps/web", "package.json", "{}"),
        ],
    );
    let of = |file: &str| rels(&g, &affected(&g, &vec![file.to_string()]).unwrap());
    assert_eq!(of("apps/web/x.ts"), vec!["apps/web"]);
    assert_eq!(of("apps/x.ts"), vec!["apps"]);
}

#[test]
fn a_glob_entry_is_asked_of_the_matcher() {
    let all = enumerate(
        &["apps/*"],
        &[
            ("apps/web", "package.json", "{}"),
            ("apps/api", "package.json", "{}"),
        ],
        None,
    );
    let patterns = vec!["apps/w*".to_string(), "apps/api".to_string()];
    let answers = glob_answers(&all, &patterns);
    assert_eq!(answers, vec![vec![false, true], vec![true, false]]);
    assert_eq!(
        choose_packages(&all, &patterns, &answers, "t").unwrap(),
        vec![1, 0]
    );
    assert!(pattern_matches("apps/w*", &all[1], true));
    assert!(!pattern_matches("apps/w*", &all[1], false));
}

#[test]
fn git_answers_become_files_or_errors() {
    assert_eq!(
        diff_args("main"),
        vec!["diff", "--name-only", "--relative", "main"]
    );
    assert_eq!(
        untracked_args(),
        vec!["ls-files", "--others", "--exclude-standard"]
    );
    let done = |s: &str| GitOutput::Done(s.to_string());
    assert_eq!(
        changed_files("main", &done("b\n  a\n\n"), &done("dir\\c\na\n")).unwrap(),
        vec!["b", "a", "dir/c", "a"]
    );
    for git in [
        GitOutput::NotRun("no such program".into()),
        GitOutput::Failed("bad revision 'nope'".into()),
    ] {
        let err = changed_files("nope", &git, &done("")).unwrap_err();
        assert!(matches!(err, TsrError::Runtime(_)));
        assert_eq!(err.exit_code(), 64);
    }
}
