//! The closure walks and the project-graph logic, driven over an in-memory
//! copy of the example workspace (`apps/cli` depends on `libs/greeter`, and
//! through its `:test` alias on `libs/testkit`; a third dependency points
//! outside the workspace).
use clojure_toolchain::closure::{
    dir_entry_action, join, ClosureContents, ClosureError, ClosureWalk, EntryAction, EntryKind,
    ManifestRead, SourceDirWalk, MANIFEST_NAMES,
};
use clojure_toolchain::config::ClojureToolchainConfig;
use clojure_toolchain::deps_edn::DepsEdnError;
use clojure_toolchain::sorted::{SortedMap, StrSet};
use clojure_toolchain::tier2::{
    extend_project_graph, install_command, parse_manifest, project_dependencies, source_index,
    task_hash_contents, DependencyScope, ManifestDep, ManifestFile, ProjectDependency, ProjectManifests,
};
use moon_pdk_api::UnresolvedVersionSpec;

const WORKSPACE: &str = "/workspace";

fn fixture() -> Vec<(&'static str, &'static str)> {
    vec![
        (
            "/workspace/apps/cli/deps.edn",
            r#"{:paths ["src"]
 :deps {org.clojure/clojure {:mvn/version "1.12.0"}
        example/greeter {:local/root "../../libs/greeter"}
        example/external {:local/root "../../../outside-workspace"}}
 :aliases {:test {:extra-paths ["test"]
                  :extra-deps {example/testkit {:local/root "../../libs/testkit"}}}}}
"#,
        ),
        ("/workspace/apps/cli/src/cli/main.clj", "(ns cli.main (:require [greeter.core]))\n"),
        ("/workspace/apps/cli/test/cli/main_test.clj", "(ns cli.main-test)\n"),
        (
            "/workspace/libs/greeter/deps.edn",
            r#"{:paths ["src" "resources"]
 :deps {org.clojure/clojure {:mvn/version "1.12.0"}}}
"#,
        ),
        ("/workspace/libs/greeter/src/greeter/core.clj", "(ns greeter.core)\n(defn greet [] \"Hello\")\n"),
        ("/workspace/libs/greeter/src/.nrepl-port", "7888"),
        ("/workspace/libs/greeter/src/node_modules/left-pad/index.js", "module.exports = 1;\n"),
        ("/workspace/libs/greeter/resources/greeting.txt", "Hello, moon!\n"),
        (
            "/workspace/libs/testkit/deps.edn",
            r#"{:deps {example/greeter {:local/root "../greeter"}}}
"#,
        ),
        ("/workspace/libs/testkit/src/testkit/helpers.clj", "(ns testkit.helpers)\n"),
        ("/workspace/scripts/bb.edn", "{:paths [\"bb\"]}\n"),
    ]
}

fn read(path: &str) -> Option<String> {
    fixture()
        .into_iter()
        .find(|(p, _)| *p == path)
        .map(|(_, c)| c.to_string())
}

fn file_exists(path: &str) -> bool {
    read(path).is_some()
}

/// The entries directly under `dir`, as a directory listing gives them.
fn list_dir(dir: &str) -> Vec<(String, EntryKind)> {
    let prefix = format!("{dir}/");
    let mut out: Vec<(String, EntryKind)> = vec![];
    for (p, _) in fixture() {
        if let Some(rest) = p.strip_prefix(&prefix) {
            let (name, kind) = match rest.split_once('/') {
                Some((d, _)) => (d.to_string(), EntryKind::Dir),
                None => (rest.to_string(), EntryKind::File),
            };
            if !out.iter().any(|(n, _)| *n == name) {
                out.push((name, kind));
            }
        }
    }
    out
}

fn hash_dir(walk: &mut ClosureWalk, dir: &str) {
    for (name, kind) in list_dir(dir) {
        let child = join(dir, &name);
        match dir_entry_action(&name, kind) {
            EntryAction::Skip => {}
            EntryAction::Descend => hash_dir(walk, &child),
            EntryAction::Hash => {
                let bytes = read(&child).map(|c| c.into_bytes());
                walk.record_source(child, bytes);
            }
        }
    }
}

fn collect_closure(
    root: &str,
    include_alias_deps: bool,
    include_dep_sources: bool,
) -> Result<ClosureContents, ClosureError> {
    let mut walk = ClosureWalk::new(root, include_alias_deps, include_dep_sources);
    while let Some(r) = walk.next_root() {
        for k in 0..MANIFEST_NAMES.len() {
            let read = match read(&ClosureWalk::manifest_path(&r, k)) {
                Some(c) => ManifestRead::Content(c),
                None => ManifestRead::Missing,
            };
            walk.record_manifest(&r, k, read)?;
        }
        for dir in walk.finish_root(&r) {
            hash_dir(&mut walk, &dir);
        }
    }
    Ok(walk.into_contents())
}

fn collect_dep_source_dirs(project_source: &str, include_alias_deps: bool) -> Result<StrSet, ClosureError> {
    let mut walk = SourceDirWalk::new(project_source, include_alias_deps);
    while let Some(r) = walk.next_root() {
        for k in 0..MANIFEST_NAMES.len() {
            let path = join(&join(WORKSPACE, &r), MANIFEST_NAMES[k]);
            walk.record_manifest(&r, k, read(&path))?;
        }
        walk.finish_root(&r);
    }
    Ok(walk.into_dirs())
}

fn keys(m: &SortedMap<String>) -> Vec<String> {
    (0..m.len()).map(|i| m.entry(i).0.clone()).collect()
}

fn value<'a>(m: &'a SortedMap<String>, key: &str) -> Option<&'a String> {
    m.get(key)
}

fn set_items(s: &StrSet) -> Vec<String> {
    (0..s.len()).map(|i| s.get(i).clone()).collect()
}

fn project_sources() -> Vec<(String, String)> {
    vec![
        ("cli".to_string(), "apps/cli".to_string()),
        ("greeter".to_string(), "libs/greeter".to_string()),
        ("testkit".to_string(), "libs/testkit".to_string()),
    ]
}

fn manifest_files(source: &str) -> Vec<ManifestFile> {
    let root = join(WORKSPACE, source);
    let mut files = vec![];
    for name in MANIFEST_NAMES {
        let path = join(&root, name);
        if let Some(content) = read(&path) {
            files.push(ManifestFile { name: name.to_string(), path, content });
        }
    }
    files
}

fn projects() -> Vec<ProjectManifests> {
    project_sources()
        .into_iter()
        .map(|(id, source)| ProjectManifests { files: manifest_files(&source), id, source })
        .collect()
}

fn extend(config: &ClojureToolchainConfig) -> Vec<(String, Vec<ProjectDependency>)> {
    extend_project_graph(config.infer_relationships, config.include_alias_deps, &projects()).unwrap()
}

// ---------------------------------------------------------------------------
// The manifest closure.

#[test]
fn walks_transitive_local_deps() {
    let manifests = collect_closure("/workspace/apps/cli", true, false).unwrap().manifests;

    let keys = keys(&manifests);

    assert!(keys.iter().any(|k| k.ends_with("apps/cli/deps.edn")));
    assert!(keys.iter().any(|k| k.ends_with("libs/greeter/deps.edn")));
    assert!(keys.iter().any(|k| k.ends_with("libs/testkit/deps.edn")));

    // The external dep does not exist: recorded as unavailable.
    let external = keys
        .iter()
        .find(|k| k.ends_with("outside-workspace"))
        .expect("external dep should be marked");
    assert_eq!(value(&manifests, external).unwrap(), "unavailable");

    // Real manifests get sha256 content hashes.
    let cli = keys.iter().find(|k| k.ends_with("apps/cli/deps.edn")).unwrap();
    assert_eq!(value(&manifests, cli).unwrap().len(), 64);
}

#[test]
fn skips_alias_deps_when_disabled() {
    let manifests = collect_closure("/workspace/apps/cli", false, false).unwrap().manifests;

    assert!(!keys(&manifests).iter().any(|k| k.contains("testkit")));
    assert!(keys(&manifests).iter().any(|k| k.ends_with("libs/greeter/deps.edn")));
}

#[test]
fn closure_keys_are_exact() {
    let manifests = collect_closure("/workspace/apps/cli/../cli", true, false).unwrap().manifests;
    assert_eq!(
        keys(&manifests),
        vec![
            "/outside-workspace",
            "/workspace/apps/cli/deps.edn",
            "/workspace/libs/greeter/deps.edn",
            "/workspace/libs/testkit/deps.edn",
        ]
    );
    let greeter = read("/workspace/libs/greeter/deps.edn").unwrap();
    assert_eq!(
        value(&manifests, "/workspace/libs/greeter/deps.edn").unwrap(),
        &clojure_toolchain::closure::sha256_hex(&greeter)
    );
}

#[test]
fn unreadable_manifests_are_marked() {
    let mut walk = ClosureWalk::new("/p", true, true);
    let r = walk.next_root().unwrap();
    assert_eq!(r, "/p");
    walk.record_manifest(&r, 0, ManifestRead::Unreadable).unwrap();
    walk.record_manifest(&r, 1, ManifestRead::Missing).unwrap();
    assert!(walk.finish_root(&r).is_empty());
    assert!(walk.next_root().is_none());
    let contents = walk.into_contents();
    assert_eq!(value(&contents.manifests, "/p/deps.edn").unwrap(), "unreadable");
    assert_eq!(contents.manifests.len(), 1);
}

#[test]
fn invalid_manifest_stops_the_walk() {
    let mut walk = ClosureWalk::new("/p", true, true);
    let r = walk.next_root().unwrap();
    let err = walk
        .record_manifest(&r, 1, ManifestRead::Content("{:paths [".to_string()))
        .unwrap_err();
    let ClosureError::InvalidManifest { path, error: DepsEdnError::InvalidEdn(_) } = err;
    assert_eq!(path, "/p/bb.edn");
}

#[test]
fn visits_each_root_once() {
    let mut walk = ClosureWalk::new("/a", true, false);
    let r = walk.next_root().unwrap();
    walk.record_manifest(
        &r,
        0,
        ManifestRead::Content(r#"{:deps {x/b {:local/root "../b"} x/b2 {:local/root "../b/"}}}"#.to_string()),
    )
    .unwrap();
    walk.finish_root(&r);
    assert_eq!(walk.next_root().as_deref(), Some("/b"));
    walk.finish_root("/b");
    assert_eq!(walk.next_root(), None);
}

// ---------------------------------------------------------------------------
// Dependency sources.

#[test]
fn hashes_dep_sources_but_never_the_origin() {
    let closure = collect_closure("/workspace/apps/cli", true, true).unwrap();
    let keys = keys(&closure.sources);

    // Every declared :paths dir of a dependency counts, resources included.
    assert!(keys.iter().any(|k| k.ends_with("libs/greeter/src/greeter/core.clj")));
    assert!(keys.iter().any(|k| k.ends_with("libs/greeter/resources/greeting.txt")));

    // The origin project's own sources belong to its task inputs.
    assert!(!keys.iter().any(|k| k.contains("apps/cli/src")));
}

#[test]
fn defaults_paths_to_src_when_undeclared() {
    // testkit's deps.edn declares no :paths: tools.deps defaults to ["src"].
    let closure = collect_closure("/workspace/apps/cli", true, true).unwrap();

    assert!(keys(&closure.sources)
        .iter()
        .any(|k| k.ends_with("libs/testkit/src/testkit/helpers.clj")));
}

#[test]
fn skips_dotfiles_and_build_output_dirs() {
    let closure = collect_closure("/workspace/apps/cli", true, true).unwrap();

    assert!(!keys(&closure.sources).iter().any(|k| k.contains(".nrepl-port")));
    assert!(!keys(&closure.sources).iter().any(|k| k.contains("node_modules")));
}

#[test]
fn respects_alias_scoping() {
    // testkit reaches cli only through the :test alias.
    let closure = collect_closure("/workspace/apps/cli", false, true).unwrap();

    assert!(!keys(&closure.sources).iter().any(|k| k.contains("testkit")));
    assert!(keys(&closure.sources).iter().any(|k| k.contains("greeter")));
}

#[test]
fn source_hashing_can_be_disabled() {
    let closure = collect_closure("/workspace/apps/cli", true, false).unwrap();

    assert!(closure.sources.is_empty());
}

#[test]
fn produces_content_hashes() {
    let closure = collect_closure("/workspace/apps/cli", true, true).unwrap();

    let key = keys(&closure.sources)
        .into_iter()
        .find(|k| k.ends_with("core.clj"))
        .unwrap();

    assert_eq!(value(&closure.sources, &key).unwrap().len(), 64);
}

#[test]
fn unreadable_sources_are_marked() {
    let mut walk = ClosureWalk::new("/p", true, true);
    walk.record_source("/q/src/a.clj".to_string(), None);
    walk.record_source("/q/src/b.clj".to_string(), Some(b"abc".to_vec()));
    let contents = walk.into_contents();
    assert_eq!(value(&contents.sources, "/q/src/a.clj").unwrap(), "unreadable");
    assert_eq!(
        value(&contents.sources, "/q/src/b.clj").unwrap(),
        "ba7816bf8f01cfea414140de5dae2223b00361a396177a9cb410ff61f20015ad"
    );
}

#[test]
fn bb_only_roots_hash_declared_paths_only() {
    let mut walk = ClosureWalk::new("/origin", true, true);
    let r = walk.next_root().unwrap();
    walk.record_manifest(&r, 1, ManifestRead::Content(r#"{:deps {s/x {:local/root "../bb"}}}"#.to_string()))
        .unwrap();
    assert!(walk.finish_root(&r).is_empty());
    let dep = walk.next_root().unwrap();
    walk.record_manifest(&dep, 1, ManifestRead::Content("{}".to_string())).unwrap();
    assert!(walk.finish_root(&dep).is_empty());
}

// ---------------------------------------------------------------------------
// Dependency source dirs for project sync.

#[test]
fn collects_declared_and_defaulted_paths() {
    let dirs = collect_dep_source_dirs("apps/cli", true).unwrap();

    assert_eq!(
        set_items(&dirs),
        vec![
            "libs/greeter/resources",
            "libs/greeter/src",
            // No :paths declared -> tools.deps default ["src"].
            "libs/testkit/src",
        ]
    );
}

#[test]
fn excludes_origin_and_alias_deps_when_disabled() {
    let dirs = collect_dep_source_dirs("apps/cli", false).unwrap();

    assert!(!set_items(&dirs).iter().any(|d| d.starts_with("apps/cli")));
    assert!(!set_items(&dirs).iter().any(|d| d.contains("testkit")));
    assert!(set_items(&dirs).iter().any(|d| d.contains("greeter")));
}

// ---------------------------------------------------------------------------
// Implicit project relationships.

#[test]
fn links_local_root_deps_as_project_deps() {
    let output = extend(&ClojureToolchainConfig::default());

    let cli = &output.iter().find(|(id, _)| id == "cli").unwrap().1;

    assert_eq!(cli.len(), 2);

    let greeter = cli.iter().find(|d| d.id == "greeter").unwrap();
    assert_eq!(greeter.scope, DependencyScope::Production);
    assert_eq!(greeter.via, "deps.edn example/greeter");

    let testkit = cli.iter().find(|d| d.id == "testkit").unwrap();
    assert_eq!(testkit.scope, DependencyScope::Development);

    // Only projects with local deps appear.
    assert!(!output.iter().any(|(id, _)| id == "greeter"));

    // All parsed manifests are project-graph cache inputs.
    assert!(manifest_files("apps/cli")
        .iter()
        .any(|f| f.path == "/workspace/apps/cli/deps.edn"));
}

#[test]
fn ignores_alias_deps_when_disabled() {
    let mut config = ClojureToolchainConfig::default();
    config.include_alias_deps = false;
    let output = extend(&config);

    let cli = &output.iter().find(|(id, _)| id == "cli").unwrap().1;

    assert_eq!(cli.len(), 1);
    assert_eq!(cli[0].id, "greeter");
}

#[test]
fn does_nothing_when_disabled() {
    let mut config = ClojureToolchainConfig::default();
    config.infer_relationships = false;
    assert!(extend(&config).is_empty());
}

#[test]
fn testkit_links_back_to_greeter() {
    let output = extend(&ClojureToolchainConfig::default());
    let ids: Vec<&str> = output.iter().map(|(id, _)| id.as_str()).collect();
    assert_eq!(ids, vec!["cli", "testkit"]);
    let testkit = &output[1].1;
    assert_eq!(testkit.len(), 1);
    assert_eq!(testkit[0].id, "greeter");
    assert_eq!(testkit[0].scope, DependencyScope::Production);
    assert_eq!(testkit[0].via, "deps.edn example/greeter");
}

#[test]
fn graph_reports_the_first_invalid_manifest() {
    let mut ps = projects();
    ps[1].files[0].content = "{".to_string();
    let err = extend_project_graph(true, true, &ps).unwrap_err();
    let ClosureError::InvalidManifest { path, .. } = err;
    assert_eq!(path, "/workspace/libs/greeter/deps.edn");
    // Not inferring relationships reads nothing.
    assert!(extend_project_graph(false, true, &ps).unwrap().is_empty());
}

#[test]
fn never_links_a_project_to_itself_or_twice() {
    let by_source = source_index(&project_sources());
    let files = vec![
        ManifestFile {
            name: "deps.edn".to_string(),
            path: "/workspace/libs/greeter/deps.edn".to_string(),
            content: r#"{:deps {me/self {:local/root "."} a/g {:local/root "../testkit"}}}"#.to_string(),
        },
        ManifestFile {
            name: "bb.edn".to_string(),
            path: "/workspace/libs/greeter/bb.edn".to_string(),
            content: r#"{:deps {b/g {:local/root "../testkit/"}}}"#.to_string(),
        },
    ];
    let deps = project_dependencies("greeter", "libs/greeter", true, &by_source, &files).unwrap();
    assert_eq!(deps.len(), 1);
    assert_eq!(deps[0].id, "testkit");
    assert_eq!(deps[0].via, "deps.edn a/g");
}

#[test]
fn reports_invalid_manifests_with_their_path() {
    let by_source = source_index(&project_sources());
    let files = vec![ManifestFile {
        name: "deps.edn".to_string(),
        path: "/workspace/apps/cli/deps.edn".to_string(),
        content: "{:deps".to_string(),
    }];
    let err = project_dependencies("cli", "apps/cli", true, &by_source, &files).unwrap_err();
    let ClosureError::InvalidManifest { path, .. } = err;
    assert_eq!(path, "/workspace/apps/cli/deps.edn");
}

#[test]
fn indexes_projects_by_normalized_source() {
    let index = source_index(&vec![
        ("root".to_string(), "./".to_string()),
        ("cli".to_string(), "apps/./cli/".to_string()),
        ("again".to_string(), "apps/cli".to_string()),
        ("up".to_string(), "..".to_string()),
    ]);
    assert_eq!(index.get(".").unwrap(), "root");
    // A later project with the same source dir wins.
    assert_eq!(index.get("apps/cli").unwrap(), "again");
    assert_eq!(index.get("..").unwrap(), "up");
    assert_eq!(index.len(), 3);
}

// ---------------------------------------------------------------------------
// Preparing dependencies.

#[test]
fn preps_deps_edn_roots() {
    let config = ClojureToolchainConfig::default();
    let root = join(WORKSPACE, "apps/cli");
    let command = install_command(
        file_exists(&join(&root, "deps.edn")),
        file_exists(&join(&root, "bb.edn")),
        &config,
    )
    .unwrap();
    assert_eq!(command.command, "clojure");
    assert_eq!(command.args, vec!["-P"]);
}

#[test]
fn passes_prepare_aliases() {
    let mut config = ClojureToolchainConfig::default();
    config.prepare_aliases = vec!["test".to_string(), "build".to_string()];
    let command = install_command(true, false, &config).unwrap();
    assert_eq!(command.args, vec!["-P", "-A:test:build"]);
}

#[test]
fn preps_bb_edn_roots() {
    let config = ClojureToolchainConfig::default();
    let root = join(WORKSPACE, "scripts");
    let command = install_command(
        file_exists(&join(&root, "deps.edn")),
        file_exists(&join(&root, "bb.edn")),
        &config,
    )
    .unwrap();
    assert_eq!(command.command, "bb");
    assert_eq!(command.args, vec!["prepare"]);
}

#[test]
fn prepares_nothing_without_a_manifest() {
    assert!(install_command(false, false, &ClojureToolchainConfig::default()).is_none());
}

// ---------------------------------------------------------------------------
// Manifests in moon's dependency model.

#[test]
fn parses_deps_and_alias_deps() {
    let path = "/workspace/apps/cli/deps.edn";
    let output = parse_manifest(path, &read(path).unwrap()).unwrap();

    let clojure = &output
        .dependencies
        .iter()
        .find(|(lib, _)| lib == "org.clojure/clojure")
        .unwrap()
        .1;
    match clojure {
        ManifestDep::Version { text, spec } => {
            assert_eq!(text, "1.12.0");
            assert_eq!(spec, &UnresolvedVersionSpec::parse("1.12.0").unwrap());
        }
        other => panic!("expected a version dependency, got {other:?}"),
    }

    let greeter = &output
        .dependencies
        .iter()
        .find(|(lib, _)| lib == "example/greeter")
        .unwrap()
        .1;
    let ManifestDep::Config { path, .. } = greeter else {
        panic!("expected a config dependency");
    };
    assert_eq!(path.as_deref(), Some("../../libs/greeter"));

    assert!(output.dev_dependencies.iter().any(|(lib, _)| lib == "example/testkit"));
}

#[test]
fn maps_every_kind_of_coordinate() {
    let output = parse_manifest(
        "deps.edn",
        r#"{:deps {a/git {:git/url "https://x/y" :git/tag "v1" :git/sha "abc"}
                  b/inferred {:git/tag "v2"}
                  c/odd {:mvn/version "not a version!"}
                  d/none {}}
           :aliases {:dev {:extra-deps {a/git {:mvn/version "9.9.9"}
                                        e/dev {:local/root "../e"}}}}}"#,
    )
    .unwrap();

    let libs: Vec<&str> = output.dependencies.iter().map(|(l, _)| l.as_str()).collect();
    assert_eq!(libs, vec!["a/git", "b/inferred", "c/odd", "d/none"]);

    match &output.dependencies[0].1 {
        ManifestDep::Config { path, url, reference } => {
            assert_eq!(path, &None);
            assert_eq!(url.as_deref(), Some("https://x/y"));
            assert_eq!(reference.as_deref(), Some("abc"));
        }
        other => panic!("unexpected {other:?}"),
    }
    match &output.dependencies[1].1 {
        ManifestDep::Config { path, url, reference } => {
            assert_eq!((path, url), (&None, &None));
            assert_eq!(reference.as_deref(), Some("v2"));
        }
        other => panic!("unexpected {other:?}"),
    }
    match &output.dependencies[2].1 {
        ManifestDep::Config { reference, .. } => assert_eq!(reference.as_deref(), Some("not a version!")),
        other => panic!("unexpected {other:?}"),
    }
    match &output.dependencies[3].1 {
        ManifestDep::Config { path, url, reference } => {
            assert_eq!((path, url, reference), (&None, &None, &None));
        }
        other => panic!("unexpected {other:?}"),
    }

    // a/git is a dependency already, so only e/dev is a dev dependency.
    let dev: Vec<&str> = output.dev_dependencies.iter().map(|(l, _)| l.as_str()).collect();
    assert_eq!(dev, vec!["e/dev"]);
}

#[test]
fn reports_unparsable_manifests() {
    let err = parse_manifest("/w/deps.edn", "{:deps {").unwrap_err();
    let ClosureError::InvalidManifest { path, error: DepsEdnError::InvalidEdn(message) } = err;
    assert_eq!(path, "/w/deps.edn");
    assert!(!message.is_empty());
}

// ---------------------------------------------------------------------------
// Task hashing.

#[test]
fn hashes_transitive_manifest_closure() {
    let config = ClojureToolchainConfig::default();
    let closure = collect_closure("/workspace/apps/cli", config.include_alias_deps, config.hash_local_sources)
        .unwrap();
    let content = task_hash_contents(closure, &config);
    let manifests = keys(&content.manifests);

    assert!(manifests.contains(&"/workspace/apps/cli/deps.edn".to_string()));
    assert!(manifests.contains(&"/workspace/libs/greeter/deps.edn".to_string()));
    assert!(manifests.contains(&"/workspace/libs/testkit/deps.edn".to_string()));

    // Manifest content changes flow into the hash.
    let hash = value(&content.manifests, "/workspace/libs/greeter/deps.edn").unwrap();
    assert_eq!(hash.len(), 64);
}

#[test]
fn hashes_dependency_sources_by_default() {
    let config = ClojureToolchainConfig::default();
    let closure = collect_closure("/workspace/apps/cli", config.include_alias_deps, config.hash_local_sources)
        .unwrap();
    let content = task_hash_contents(closure, &config);
    let sources = keys(content.local_sources.as_ref().unwrap());

    assert!(sources.contains(&"/workspace/libs/greeter/src/greeter/core.clj".to_string()));
    assert!(sources.contains(&"/workspace/libs/greeter/resources/greeting.txt".to_string()));
    // No :paths declared -> tools.deps default ["src"].
    assert!(sources.contains(&"/workspace/libs/testkit/src/testkit/helpers.clj".to_string()));
    // The origin project's own sources belong to its task inputs.
    assert!(!sources.iter().any(|k| k.contains("apps/cli")));
}

#[test]
fn omits_sources_when_disabled() {
    let mut config = ClojureToolchainConfig::default();
    config.hash_local_sources = false;
    let closure = collect_closure("/workspace/apps/cli", config.include_alias_deps, config.hash_local_sources)
        .unwrap();
    let content = task_hash_contents(closure, &config);

    assert!(content.local_sources.is_none());
}

#[test]
fn marks_external_deps_unavailable() {
    let config = ClojureToolchainConfig::default();
    let closure = collect_closure("/workspace/apps/cli", config.include_alias_deps, config.hash_local_sources)
        .unwrap();
    let content = task_hash_contents(closure, &config);

    let external = keys(&content.manifests)
        .into_iter()
        .find(|k| k.contains("outside-workspace"))
        .expect("external dep should be tracked");
    assert_eq!(value(&content.manifests, &external).unwrap(), "unavailable");
}

#[test]
fn hashes_prepare_aliases_when_set() {
    let mut config = ClojureToolchainConfig::default();
    assert!(task_hash_contents(collect_closure("/nowhere", true, true).unwrap(), &config)
        .prepare_aliases
        .is_none());
    config.prepare_aliases = vec!["test".to_string()];
    let content = task_hash_contents(collect_closure("/nowhere", true, true).unwrap(), &config);
    assert_eq!(content.prepare_aliases, Some(vec!["test".to_string()]));
    assert_eq!(value(&content.manifests, "/nowhere").unwrap(), "unavailable");
}

#[test]
fn config_defaults_turn_everything_on() {
    let config = ClojureToolchainConfig::default();
    assert!(config.infer_relationships);
    assert!(config.include_alias_deps);
    assert!(config.hash_local_sources);
    assert!(config.sync_dependency_inputs);
    assert!(config.prepare_aliases.is_empty());
}

#[test]
fn records_no_sources_when_not_hashing_them() {
    let mut walk = ClosureWalk::new("/p", true, false);
    walk.record_source("/q/src/a.clj".to_string(), Some(b"abc".to_vec()));
    assert!(walk.into_contents().sources.is_empty());
}
