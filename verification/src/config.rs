//! The toolchain's settings, as the logic reads them.
use vstd::prelude::*;

verus! {

/// Configures and enables the Clojure toolchain.
#[derive(Clone, Debug, PartialEq)]
pub struct ClojureToolchainConfig {
    /// Infer project relationships from `:local/root` coordinates
    /// found in `deps.edn` and `bb.edn` manifests.
    pub infer_relationships: bool,
    /// Also scan alias maps (`:extra-deps`, `:replace-deps`, `:deps`,
    /// `:override-deps`, `:default-deps`) for `:local/root` coordinates.
    pub include_alias_deps: bool,
    /// Fold every source file of the transitive `:local/root` dependency
    /// closure into task hashes (each dependency's top-level `:paths`,
    /// tools.deps default `["src"]`), not just the manifests.
    pub hash_local_sources: bool,
    /// Aliases to activate when preparing dependencies, e.g. `["test", "build"]`
    /// results in `clojure -P -A:test:build`.
    pub prepare_aliases: Vec<String>,
    /// During project sync, generate and maintain a marker-delimited
    /// `fileGroups.localDeps` block in each Clojure project's `moon.yml`.
    pub sync_dependency_inputs: bool,
}

impl ClojureToolchainConfig {
    /// The settings when nothing is configured: every switch on, no aliases.
    pub fn defaults() -> (r: ClojureToolchainConfig)
        ensures
            r.infer_relationships,
            r.include_alias_deps,
            r.hash_local_sources,
            r.prepare_aliases@.len() == 0,
            r.sync_dependency_inputs,
    {
        ClojureToolchainConfig {
            infer_relationships: true,
            include_alias_deps: true,
            hash_local_sources: true,
            prepare_aliases: Vec::new(),
            sync_dependency_inputs: true,
        }
    }
}

impl Default for ClojureToolchainConfig {
    fn default() -> (r: ClojureToolchainConfig)
        ensures
            r.infer_relationships,
            r.include_alias_deps,
            r.hash_local_sources,
            r.prepare_aliases@.len() == 0,
            r.sync_dependency_inputs,
    {
        ClojureToolchainConfig::defaults()
    }
}

} // verus!
