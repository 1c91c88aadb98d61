use clojure_toolchain::sorted::StrSet;
use clojure_toolchain::sync::{
    has_unmanaged_file_groups, render_local_deps_block, splice_managed_block, BLOCK_END, BLOCK_START,
    GROUP_NAME,
};
use clojure_toolchain::tier2::sync_update;

fn dirs(entries: &[&str]) -> StrSet {
    let mut set = StrSet::new();
    for e in entries {
        set.insert(e.to_string());
    }
    set
}

#[test]
fn renders_globs_sorted() {
    let block = render_local_deps_block(&dirs(&["libs/b/src", "libs/a/src"]));

    let a = block.find("libs/a/src").unwrap();
    let b = block.find("libs/b/src").unwrap();

    assert!(a < b);
    assert!(block.contains("- '/libs/a/src/**/*'"));
    assert!(block.starts_with("# <clojure-toolchain:local-deps>\n"));
    assert!(block.ends_with("# </clojure-toolchain:local-deps>\n"));
}

#[test]
fn renders_empty_group() {
    let block = render_local_deps_block(&dirs(&[]));

    assert!(block.contains("localDeps: []"));
}

#[test]
fn renders_the_exact_block() {
    let block = render_local_deps_block(&dirs(&["libs/greeter/src"]));
    assert_eq!(
        block,
        "# <clojure-toolchain:local-deps>\n\
         # Generated from deps.edn's transitive :local/root closure \u{2014} the source\n\
         # dirs of every local dependency. Do not edit: project sync (any moon run,\n\
         # or `moon sync projects`) refreshes it. Reference it from tasks as an\n\
         # input: '@group(localDeps)'.\n\
         fileGroups:\n  localDeps:\n    - '/libs/greeter/src/**/*'\n\
         # </clojure-toolchain:local-deps>\n"
    );
    assert_eq!(GROUP_NAME, "localDeps");
    assert_eq!(BLOCK_START, "# <clojure-toolchain:local-deps>");
    assert_eq!(BLOCK_END, "# </clojure-toolchain:local-deps>");
}

#[test]
fn appends_when_absent() {
    let content = "language: 'clojure'\n";
    let block = render_local_deps_block(&dirs(&["libs/a/src"]));

    let updated = splice_managed_block(content, &block).unwrap();

    assert!(updated.starts_with("language: 'clojure'\n\n# <clojure-toolchain"));
    assert!(updated.ends_with("# </clojure-toolchain:local-deps>\n"));
}

#[test]
fn appends_to_empty_and_unterminated_text() {
    let block = render_local_deps_block(&dirs(&["libs/a/src"]));

    assert_eq!(splice_managed_block("", &block).unwrap(), block);
    assert_eq!(
        splice_managed_block("a: 1", &block).unwrap(),
        format!("a: 1\n\n{block}")
    );
    assert_eq!(
        splice_managed_block("a: 1\n\n", &block).unwrap(),
        format!("a: 1\n\n{block}")
    );
}

#[test]
fn replaces_in_place_preserving_surroundings() {
    let block_v1 = render_local_deps_block(&dirs(&["libs/a/src"]));
    let content = format!("language: 'clojure'\n\n{block_v1}\ntasks: {{}}\n");

    let block_v2 = render_local_deps_block(&dirs(&["libs/a/src", "libs/b/src"]));
    let updated = splice_managed_block(&content, &block_v2).unwrap();

    assert!(updated.contains("- '/libs/b/src/**/*'"));
    assert!(updated.starts_with("language: 'clojure'\n"));
    assert!(updated.ends_with("tasks: {}\n"));
    // Exactly one managed block remains.
    assert_eq!(updated.matches("# <clojure-toolchain:local-deps>").count(), 1);
}

#[test]
fn replaces_indented_markers() {
    let content = "a: 1\n  # <clojure-toolchain:local-deps>\nold\n  # </clojure-toolchain:local-deps>\nb: 2\n";
    let block = render_local_deps_block(&dirs(&[]));
    let updated = splice_managed_block(content, &block).unwrap();
    assert_eq!(updated, format!("a: 1\n{block}b: 2\n"));
}

#[test]
fn idempotent_when_unchanged() {
    let block = render_local_deps_block(&dirs(&["libs/a/src"]));
    let content = format!("language: 'clojure'\n\n{block}");

    assert!(splice_managed_block(&content, &block).is_none());
}

#[test]
fn splicing_twice_settles() {
    let block = render_local_deps_block(&dirs(&["libs/a/src", "libs/b/src"]));
    for content in [
        "",
        "language: 'clojure'\n",
        "x: 1\n# <clojure-toolchain:local-deps>\nstale\n# </clojure-toolchain:local-deps>\ny: 2\n",
    ] {
        let once = splice_managed_block(content, &block).unwrap();
        assert!(splice_managed_block(&once, &block).is_none());
    }
}

#[test]
fn detects_hand_written_file_groups() {
    assert!(has_unmanaged_file_groups("fileGroups:\n  own: []\n"));
}

#[test]
fn detects_indented_hand_written_file_groups() {
    assert!(has_unmanaged_file_groups("tasks: {}\n   fileGroups:\n"));
    assert!(!has_unmanaged_file_groups("tasks: {}\n# fileGroups:\n"));
    assert!(!has_unmanaged_file_groups(""));
}

#[test]
fn ignores_the_managed_block_itself() {
    let block = render_local_deps_block(&dirs(&["libs/a/src"]));
    let content = format!("language: 'clojure'\n\n{block}");

    assert!(!has_unmanaged_file_groups(&content));
}

#[test]
fn sync_leaves_leaf_projects_alone() {
    assert_eq!(sync_update(&dirs(&[]), "language: 'clojure'\n"), None);
    assert_eq!(sync_update(&dirs(&[]), ""), None);
}

#[test]
fn sync_leaves_hand_written_groups_alone() {
    assert_eq!(
        sync_update(&dirs(&["libs/a/src"]), "fileGroups:\n  own: []\n"),
        None
    );
}

#[test]
fn sync_writes_then_settles() {
    let d = dirs(&["libs/a/src"]);
    let first = sync_update(&d, "language: 'clojure'\n").unwrap();
    assert!(first.starts_with("language: 'clojure'\n\n# <clojure-toolchain:local-deps>\n"));
    assert_eq!(sync_update(&d, &first), None);
}

#[test]
fn sync_empties_a_managed_block_when_deps_go_away() {
    let with = sync_update(&dirs(&["libs/a/src"]), "").unwrap();
    let without = sync_update(&dirs(&[]), &with).unwrap();
    assert!(without.contains("localDeps: []"));
    assert!(!without.contains("libs/a/src"));
}
