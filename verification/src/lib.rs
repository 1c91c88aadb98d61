//! Clojure (tools.deps) toolchain logic for the moon build system.
pub mod text;
pub mod paths;
pub mod sorted;
pub mod edn;
pub mod deps_edn;
pub mod sync;
pub mod closure;
pub mod config;
pub mod tier2;
