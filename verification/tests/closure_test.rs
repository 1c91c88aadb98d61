use clojure_toolchain::closure::{
    dir_entry_action, join, normalize_path, normalize_rel_source, sha256_hex, sha256_hex_bytes,
    ClosureContents, EntryAction, EntryKind, MANIFEST_NAMES, SKIPPED_DIR_NAMES,
};

#[test]
fn resolves_relative_paths() {
    assert_eq!(
        normalize_rel_source("apps/cli", "../../libs/greeter").as_deref(),
        Some("libs/greeter")
    );
    assert_eq!(
        normalize_rel_source("apps/cli", "./nested").as_deref(),
        Some("apps/cli/nested")
    );
    assert_eq!(normalize_rel_source("apps/cli", "../..").as_deref(), Some("."));
    assert_eq!(normalize_rel_source(".", "libs/a").as_deref(), Some("libs/a"));
}

#[test]
fn rejects_escapes_and_absolutes() {
    assert_eq!(normalize_rel_source("apps/cli", "../../../other"), None);
    assert_eq!(normalize_rel_source(".", ".."), None);
    assert_eq!(normalize_rel_source("apps/cli", "/abs/path"), None);
    assert_eq!(normalize_rel_source("apps/cli", "C:/other"), None);
}

#[test]
fn rel_source_ignores_empty_and_dot_components() {
    assert_eq!(
        normalize_rel_source("./apps//cli/", "..//lib/./x").as_deref(),
        Some("apps/lib/x")
    );
    assert_eq!(normalize_rel_source("", "").as_deref(), Some("."));
    assert_eq!(normalize_rel_source("apps/cli", "http://x").as_deref(), None);
}

#[test]
fn normalizes_paths_lexically() {
    assert_eq!(normalize_path("/workspace/apps/cli/../../libs/greeter"), "/workspace/libs/greeter");
    assert_eq!(normalize_path("/workspace/./apps/./cli"), "/workspace/apps/cli");
    assert_eq!(normalize_path("a/b/../../.."), "..");
    assert_eq!(normalize_path("../x"), "../x");
    assert_eq!(normalize_path("/.."), "/..");
    assert_eq!(normalize_path("../.."), "../..");
    // Every `..` that climbs past the start is kept.
    assert_eq!(normalize_path("../../x"), "../../x");
    assert_eq!(normalize_path("../a/../../b"), "../../b");
    assert_eq!(normalize_path("/../../x"), "/../../x");
    assert_eq!(normalize_path(""), "");
}

#[test]
fn normalizing_twice_changes_nothing() {
    assert_eq!(normalize_path("../../a/b/.."), "../../a");
    for p in ["/workspace/apps/../x/./y", "../../a/b/..", "a//b/", "/", "../../x", "./../.."] {
        let once = normalize_path(p);
        assert_eq!(normalize_path(&once), once);
    }
}

#[test]
fn resolved_sources_are_already_normal() {
    let r = normalize_rel_source("apps/cli", "../../libs/./greeter/").unwrap();
    assert_eq!(normalize_rel_source(&r, ".").as_deref(), Some(r.as_str()));
}

#[test]
fn joins_paths_like_path_join() {
    assert_eq!(join("/workspace", "deps.edn"), "/workspace/deps.edn");
    assert_eq!(join("/workspace/", "deps.edn"), "/workspace/deps.edn");
    assert_eq!(join("", "deps.edn"), "deps.edn");
    assert_eq!(join("/workspace", "/abs"), "/abs");
}

#[test]
fn sha256_of_known_inputs() {
    assert_eq!(
        sha256_hex(""),
        "e3b0c44298fc1c149afbf4c8996fb92427ae41e4649b934ca495991b7852b855"
    );
    assert_eq!(
        sha256_hex("abc"),
        "ba7816bf8f01cfea414140de5dae2223b00361a396177a9cb410ff61f20015ad"
    );
    assert_eq!(sha256_hex_bytes(b"abc"), sha256_hex("abc"));
}

#[test]
fn sha256_is_64_lowercase_hex() {
    let h = sha256_hex("(ns greeter.core)");
    assert_eq!(h.len(), 64);
    assert!(h.chars().all(|c| c.is_ascii_digit() || ('a'..='f').contains(&c)));
}

#[test]
fn manifest_and_skipped_names() {
    assert_eq!(MANIFEST_NAMES, ["deps.edn", "bb.edn"]);
    assert_eq!(SKIPPED_DIR_NAMES, ["target", "node_modules"]);
}

#[test]
fn decides_directory_entries() {
    assert_eq!(dir_entry_action(".nrepl-port", EntryKind::File), EntryAction::Skip);
    assert_eq!(dir_entry_action(".git", EntryKind::Dir), EntryAction::Skip);
    assert_eq!(dir_entry_action("target", EntryKind::Dir), EntryAction::Skip);
    assert_eq!(dir_entry_action("node_modules", EntryKind::Dir), EntryAction::Skip);
    assert_eq!(dir_entry_action("target", EntryKind::File), EntryAction::Hash);
    assert_eq!(dir_entry_action("greeter", EntryKind::Dir), EntryAction::Descend);
    assert_eq!(dir_entry_action("core.clj", EntryKind::File), EntryAction::Hash);
    assert_eq!(
        dir_entry_action("link.clj", EntryKind::Symlink { target_is_file: true }),
        EntryAction::Hash
    );
    assert_eq!(
        dir_entry_action("linked-dir", EntryKind::Symlink { target_is_file: false }),
        EntryAction::Skip
    );
    assert_eq!(dir_entry_action("odd", EntryKind::Unknown), EntryAction::Skip);
}

#[test]
fn empty_closure_contents() {
    let c = ClosureContents::default();
    assert!(c.manifests.is_empty());
    assert!(c.sources.is_empty());
}
