use clojure_toolchain::deps_edn::{DepCoord, DepsEdn, DepsEdnError};

#[test]
fn parses_empty_content() {
    assert_eq!(DepsEdn::parse("").unwrap(), DepsEdn::default());
    assert_eq!(DepsEdn::parse("  \n").unwrap(), DepsEdn::default());
    assert_eq!(DepsEdn::parse("{}").unwrap(), DepsEdn::default());
}

#[test]
fn parses_paths_and_deps() {
    let doc = DepsEdn::parse(
        r#"
        ;; a comment
        {:paths ["src" "resources"]
         :deps {org.clojure/clojure {:mvn/version "1.12.0"}
                example/lib {:local/root "../lib"}
                io.github.foo/bar {:git/url "https://github.com/foo/bar"
                                   :git/sha "abc123"}}}
        "#,
    )
    .unwrap();

    assert_eq!(doc.paths, vec!["src", "resources"]);
    assert_eq!(
        doc.deps.get("org.clojure/clojure").unwrap().mvn_version.as_deref(),
        Some("1.12.0")
    );
    assert_eq!(doc.deps.get("example/lib").unwrap().local_root.as_deref(), Some("../lib"));
    assert_eq!(
        doc.deps.get("io.github.foo/bar").unwrap().git_url.as_deref(),
        Some("https://github.com/foo/bar")
    );
    assert_eq!(doc.deps.get("io.github.foo/bar").unwrap().git_sha.as_deref(), Some("abc123"));
}

#[test]
fn parses_alias_deps_and_paths() {
    let doc = DepsEdn::parse(
        r#"
        {:deps {}
         :aliases
         {:test {:extra-paths ["test"]
                 :extra-deps {example/testkit {:local/root "../testkit"}}}
          :build {:deps {io.github.clojure/tools.build {:mvn/version "0.10.5"}}
                  :ns-default build}}}
        "#,
    )
    .unwrap();

    assert_eq!(
        doc.alias_deps.get("example/testkit").unwrap().local_root.as_deref(),
        Some("../testkit")
    );
    assert_eq!(
        doc.alias_deps.get("io.github.clojure/tools.build").unwrap()
            .mvn_version
            .as_deref(),
        Some("0.10.5")
    );
    assert_eq!(doc.alias_paths, vec!["test"]);
}

#[test]
fn resolves_keyword_path_aliases() {
    let doc = DepsEdn::parse(
        r#"
        {:paths [:clj-paths "resources"]
         :aliases {:clj-paths ["src/clj" "src/cljc"]}}
        "#,
    )
    .unwrap();

    assert_eq!(doc.paths, vec!["src/clj", "src/cljc", "resources"]);
}

#[test]
fn tolerates_tagged_literals_and_discards() {
    let doc = DepsEdn::parse(
        r#"
        {:paths ["src"]
         #_:ignored-key
         :deps {example/lib {:local/root #_"old" "../lib"}}
         :other #shadow/env "PORT"}
        "#,
    )
    .unwrap();

    assert_eq!(doc.paths, vec!["src"]);
    assert_eq!(doc.deps.get("example/lib").unwrap().local_root.as_deref(), Some("../lib"));
}

#[test]
fn local_deps_dedups_alias_overrides() {
    let doc = DepsEdn::parse(
        r#"
        {:deps {example/a {:local/root "../a"}}
         :aliases {:dev {:extra-deps {example/a {:local/root "../a-dev"}
                                      example/b {:local/root "../b"}}}}}
        "#,
    )
    .unwrap();

    let with_aliases = doc.local_deps(true);
    assert_eq!(
        with_aliases,
        vec![("example/a", "../a", false), ("example/b", "../b", true)]
    );

    let without_aliases = doc.local_deps(false);
    assert_eq!(without_aliases, vec![("example/a", "../a", false)]);
}

#[test]
fn parses_git_tag_coordinates() {
    let doc = DepsEdn::parse(
        r#"
        {:deps {io.github.cognitect-labs/test-runner
                {:git/tag "v0.5.1" :git/sha "dfb30dd"}}}
        "#,
    )
    .unwrap();

    let coord = doc.deps.get("io.github.cognitect-labs/test-runner").unwrap();
    assert_eq!(coord.git_tag.as_deref(), Some("v0.5.1"));
    assert_eq!(coord.git_sha.as_deref(), Some("dfb30dd"));
}

#[test]
fn deps_come_out_in_lib_order() {
    let doc = DepsEdn::parse(r#"{:deps {z/z {:mvn/version "1"} a/a {:mvn/version "2"} m/m {}}}"#).unwrap();
    let libs: Vec<String> = (0..doc.deps.len()).map(|i| doc.deps.entry(i).0.clone()).collect();
    assert_eq!(libs, vec!["a/a", "m/m", "z/z"]);
}

#[test]
fn paths_are_collected_once() {
    let doc = DepsEdn::parse(
        r#"{:paths ["src" :more "src"]
            :aliases {:more ["res" "src"]
                      :a {:extra-paths ["test"] :paths ["test" "dev"]}}}"#,
    )
    .unwrap();
    assert_eq!(doc.paths, vec!["src", "res"]);
    assert_eq!(doc.alias_paths, vec!["test", "dev"]);
}

#[test]
fn reads_short_git_keys_and_string_libs() {
    let doc = DepsEdn::parse(
        r#"{:deps {"str/lib" {:sha "s1" :tag "t1"}
                   sym/lib {:git/sha "s2" :sha "ignored"}
                   :kw/lib {:mvn/version "1"}
                   odd/coord "not a map"}}"#,
    )
    .unwrap();
    let str_lib = doc.deps.get("str/lib").unwrap();
    assert_eq!(str_lib.git_sha.as_deref(), Some("s1"));
    assert_eq!(str_lib.git_tag.as_deref(), Some("t1"));
    assert_eq!(doc.deps.get("sym/lib").unwrap().git_sha.as_deref(), Some("s2"));
    // Keyword lib names are not dependencies.
    assert!(doc.deps.get("kw/lib").is_none());
    assert_eq!(doc.deps.get("odd/coord").unwrap(), &DepCoord::default());
    assert_eq!(doc.deps.len(), 3);
}

#[test]
fn non_map_documents_are_empty() {
    assert_eq!(DepsEdn::parse("[1 2 3]").unwrap(), DepsEdn::default());
    assert_eq!(DepsEdn::parse("#tag {:paths [\"src\"]}").unwrap().paths, vec!["src"]);
}

#[test]
fn rejects_text_that_is_not_edn() {
    let DepsEdnError::InvalidEdn(message) = DepsEdn::parse("{:paths [").unwrap_err();
    assert!(!message.is_empty());
}

#[test]
fn alias_deps_shadowed_only_by_local_top_level_deps() {
    let doc = DepsEdn::parse(
        r#"{:deps {x/a {:mvn/version "1"} x/b {:local/root "../b"}}
            :aliases {:dev {:extra-deps {x/a {:local/root "../a"} x/b {:local/root "../b2"}}}}}"#,
    )
    .unwrap();
    assert_eq!(
        doc.local_deps(true),
        vec![("x/b", "../b", false), ("x/a", "../a", true)]
    );
    assert!(doc.deps.get("x/b").unwrap().is_local());
    assert!(!doc.deps.get("x/a").unwrap().is_local());
}
